//! The skeletal joint-hierarchy editor.
//!
//! Joints live in one ordered collection; each joint names its parent by id
//! (a weak back-reference, never an owning edge). The parent graph must stay
//! acyclic at all times, which is enforced before every mutation. The one
//! mutating transaction is [`JointHierarchy::reparent`]: it re-hangs a
//! dragged joint under a new parent, recomputes the dragged joint's local
//! position from the difference of world positions, and moves the joint to
//! the new parent's slot in the ordered collection.
//!
//! Positions are fixed-point integer coordinates; world positions are the
//! sums of local positions along the ancestor chain (rotation and scale are
//! deliberately not composed into this accumulation).

use vstd::prelude::*;

verus! {

/// Largest number of joints one hierarchy may hold. Together with
/// [`WORLD_LIMIT`] this keeps every ancestor-chain computation inside `i64`.
pub const MAX_JOINTS: usize = 0x10_0000;

/// Bound on the magnitude of every world-position coordinate, in fixed-point
/// units. A local position is the difference of two world positions, so it
/// stays within twice this bound, and the running sums of an ancestor-chain
/// walk stay within three times this bound, well inside `i64`.
pub const WORLD_LIMIT: i64 = 0x1000_0000_0000_0000;

/// A 3D position in fixed-point units.
#[derive(Clone, Copy, Debug, PartialEq, Eq, Structural)]
pub struct Vec3 {
    pub x: i64,
    pub y: i64,
    pub z: i64,
}

/// A rotation (quaternion components in fixed-point units). Reparenting
/// carries it through untouched.
#[derive(Clone, Copy, Debug, PartialEq, Eq, Structural)]
pub struct Rotation {
    pub x: i64,
    pub y: i64,
    pub z: i64,
    pub w: i64,
}

/// One skeletal joint of the editable hierarchy.
#[derive(Debug)]
pub struct Joint {
    /// Unique identifier within the hierarchy.
    pub id: String,
    /// Display name shown by the tree view.
    pub name: String,
    /// Weak back-reference to the parent joint, `None` for a root.
    pub parent_id: Option<String>,
    /// Position relative to the parent (relative to the origin for a root).
    pub local_position: Vec3,
    pub rotation: Rotation,
    pub scale: Vec3,
}

/// Mathematical model of a [`Joint`]: strings become character sequences.
pub ghost struct JointView {
    pub id: Seq<char>,
    pub name: Seq<char>,
    pub parent_id: Option<Seq<char>>,
    pub local_position: Vec3,
    pub rotation: Rotation,
    pub scale: Vec3,
}

impl View for Joint {
    type V = JointView;

    open spec fn view(&self) -> JointView {
        JointView {
            id: self.id@,
            name: self.name@,
            parent_id: match self.parent_id {
                Option::None => Option::None,
                Option::Some(p) => Option::Some(p@),
            },
            local_position: self.local_position,
            rotation: self.rotation,
            scale: self.scale,
        }
    }
}

/// Why a hierarchy edit was rejected. In every error case the collection is
/// left untouched.
#[derive(Clone, Copy, Debug, PartialEq, Eq, Structural)]
pub enum ReparentError {
    /// A referenced joint id is absent from the collection.
    NotFound,
    /// The new parent lies in the dragged joint's own subtree (or is the
    /// dragged joint itself), so the edit would create a loop.
    CycleDetected,
}

/// Why a joint could not be appended to the hierarchy.
#[derive(Clone, Copy, Debug, PartialEq, Eq, Structural)]
pub enum AddJointError {
    /// The new joint's id is already present.
    DuplicateId,
    /// The named parent is absent.
    ParentNotFound,
    /// The joint's world position would leave the fixed-point range.
    PositionOutOfRange,
    /// The collection already holds [`MAX_JOINTS`] joints.
    CapacityExceeded,
}

// ---------------------------------------------------------------------------
// Specification model
// ---------------------------------------------------------------------------

/// No two joints share an id.
pub open spec fn ids_unique(s: Seq<JointView>) -> bool {
    forall|i: int, j: int| 0 <= i < j < s.len() ==> s[i].id != s[j].id
}

/// The id-indexed form of the collection.
pub open spec fn jmap(s: Seq<JointView>) -> Map<Seq<char>, JointView>
    decreases s.len(),
{
    if s.len() == 0 {
        Map::empty()
    } else {
        jmap(s.drop_last()).insert(s.last().id, s.last())
    }
}

/// Every parent link names a joint that exists in the collection.
pub open spec fn closed_map(m: Map<Seq<char>, JointView>) -> bool {
    forall|id: Seq<char>| #[trigger] m.contains_key(id) ==> match m[id].parent_id {
        Option::Some(p) => m.contains_key(p),
        Option::None => true,
    }
}

/// Number of hops from `id` to its root, following parent links, when the
/// walk both stays inside the collection and ends within `fuel` hops.
/// A `None` for a joint that exists means its ancestor chain is broken or
/// longer than `fuel` (in a well-formed hierarchy that never happens).
pub open spec fn depth_via(m: Map<Seq<char>, JointView>, id: Seq<char>, fuel: nat) -> Option<nat>
    decreases fuel,
{
    if !m.contains_key(id) {
        Option::None
    } else {
        match m[id].parent_id {
            Option::None => Option::Some(0 as nat),
            Option::Some(p) => if fuel == 0 {
                Option::None
            } else {
                match depth_via(m, p, (fuel - 1) as nat) {
                    Option::None => Option::None,
                    Option::Some(k) => Option::Some((k + 1) as nat),
                }
            },
        }
    }
}

pub open spec fn v3(v: Vec3) -> (int, int, int) {
    (v.x as int, v.y as int, v.z as int)
}

pub open spec fn add3(a: (int, int, int), b: (int, int, int)) -> (int, int, int) {
    (a.0 + b.0, a.1 + b.1, a.2 + b.2)
}

pub open spec fn sub3(a: (int, int, int), b: (int, int, int)) -> (int, int, int) {
    (a.0 - b.0, a.1 - b.1, a.2 - b.2)
}

/// World position of `id`: its local position plus the local positions of
/// all its ancestors. Rotation and scale are deliberately not composed in.
/// If the chain breaks or outruns `fuel`, the accumulation simply stops
/// (a well-formed hierarchy never reaches either case).
pub open spec fn world_via(m: Map<Seq<char>, JointView>, id: Seq<char>, fuel: nat) -> (
    int,
    int,
    int,
)
    decreases fuel,
{
    if !m.contains_key(id) {
        (0, 0, 0)
    } else {
        match m[id].parent_id {
            Option::None => v3(m[id].local_position),
            Option::Some(p) => if fuel == 0 {
                v3(m[id].local_position)
            } else {
                add3(v3(m[id].local_position), world_via(m, p, (fuel - 1) as nat))
            },
        }
    }
}

/// Does `needle` occur on the ancestor chain that begins at `start`?
/// The chain includes `start` itself.
pub open spec fn chain_reaches(
    m: Map<Seq<char>, JointView>,
    needle: Seq<char>,
    start: Seq<char>,
    fuel: nat,
) -> bool
    decreases fuel,
{
    if start == needle {
        true
    } else if !m.contains_key(start) {
        false
    } else {
        match m[start].parent_id {
            Option::None => false,
            Option::Some(p) => fuel > 0 && chain_reaches(m, needle, p, (fuel - 1) as nat),
        }
    }
}

/// The ids of the joints, in collection order.
pub open spec fn joint_ids(s: Seq<JointView>) -> Seq<Seq<char>> {
    s.map_values(|j: JointView| j.id)
}

/// The ids of the joints whose ancestor chain passes through `root`, in
/// collection order.
pub open spec fn descendant_ids(s: Seq<JointView>, root: Seq<char>) -> Seq<Seq<char>> {
    joint_ids(s).filter(|x: Seq<char>| is_descendant(jmap(s), x, root, s.len() as nat))
}

/// `x` hangs (directly or transitively) below `root`.
pub open spec fn is_descendant(
    m: Map<Seq<char>, JointView>,
    x: Seq<char>,
    root: Seq<char>,
    fuel: nat,
) -> bool {
    x != root && chain_reaches(m, root, x, fuel)
}

pub open spec fn in_world_bounds(w: (int, int, int)) -> bool {
    &&& -(WORLD_LIMIT as int) <= w.0 <= WORLD_LIMIT as int
    &&& -(WORLD_LIMIT as int) <= w.1 <= WORLD_LIMIT as int
    &&& -(WORLD_LIMIT as int) <= w.2 <= WORLD_LIMIT as int
}

/// Well-formedness of the collection: ids are unique, parent links resolve,
/// every ancestor chain terminates (the parent graph is acyclic), and every
/// world position stays in fixed-point range.
pub open spec fn wf_seq(s: Seq<JointView>) -> bool {
    &&& s.len() <= MAX_JOINTS
    &&& ids_unique(s)
    &&& closed_map(jmap(s))
    &&& forall|id: Seq<char>| #[trigger]
        jmap(s).contains_key(id) ==> depth_via(jmap(s), id, s.len() as nat) is Some
    &&& forall|id: Seq<char>| #[trigger]
        jmap(s).contains_key(id) ==> in_world_bounds(world_via(jmap(s), id, s.len() as nat))
}

/// World position a joint would take if appended to `s` as it stands.
pub open spec fn world_of_new_joint(s: Seq<JointView>, j: JointView) -> (int, int, int) {
    match j.parent_id {
        Option::None => v3(j.local_position),
        Option::Some(p) => add3(v3(j.local_position), world_via(jmap(s), p, s.len() as nat)),
    }
}

/// First (and, with unique ids, only) index of the joint carrying `id`.
pub open spec fn idx_of(s: Seq<JointView>, id: Seq<char>) -> int {
    choose|i: int| 0 <= i < s.len() && s[i].id == id
}

/// The dragged joint as a successful reparent rewrites it: parent set to
/// `t`, local position set to the component-wise difference of the two
/// current world positions (so its world position stays put), everything
/// else untouched.
pub open spec fn reparented_joint(s: Seq<JointView>, d: Seq<char>, t: Seq<char>) -> JointView {
    let m = jmap(s);
    let n = s.len() as nat;
    let dp = idx_of(s, d);
    let nl = sub3(world_via(m, d, n), world_via(m, t, n));
    JointView {
        id: s[dp].id,
        name: s[dp].name,
        parent_id: Option::Some(t),
        local_position: Vec3 { x: nl.0 as i64, y: nl.1 as i64, z: nl.2 as i64 },
        rotation: s[dp].rotation,
        scale: s[dp].scale,
    }
}

/// The collection after re-hanging `d` under `t`: `d`'s entry rewritten by
/// [`reparented_joint`] and moved to the slot `t` occupied when the
/// transaction began.
pub open spec fn reparented(s: Seq<JointView>, d: Seq<char>, t: Seq<char>) -> Seq<JointView> {
    s.remove(idx_of(s, d)).insert(idx_of(s, t), reparented_joint(s, d, t))
}

/// What `reparent` does, as a function of the collection and the two ids:
/// `NotFound` when either id is absent, `CycleDetected` when the dragged id
/// occurs on the ancestor chain that starts at the target (dragging a joint
/// onto itself included), and otherwise the reparented collection.
pub open spec fn reparent_spec(s: Seq<JointView>, d: Seq<char>, t: Seq<char>) -> Result<
    Seq<JointView>,
    ReparentError,
> {
    let m = jmap(s);
    if !m.contains_key(d) || !m.contains_key(t) {
        Result::Err(ReparentError::NotFound)
    } else if chain_reaches(m, d, t, s.len() as nat) {
        Result::Err(ReparentError::CycleDetected)
    } else {
        Result::Ok(reparented(s, d, t))
    }
}

// ---------------------------------------------------------------------------
// Facts about the id-indexed form
// ---------------------------------------------------------------------------

/// An id is a key of `jmap(s)` exactly when some joint of `s` carries it.
pub proof fn lemma_jmap_dom(s: Seq<JointView>)
    ensures
        forall|id: Seq<char>|
            #[trigger] jmap(s).contains_key(id) <==> exists|i: int|
                0 <= i < s.len() && s[i].id == id,
    decreases s.len(),
{
    if s.len() > 0 {
        lemma_jmap_dom(s.drop_last());
        assert forall|id: Seq<char>| #[trigger] jmap(s).contains_key(id) implies exists|i: int|
            0 <= i < s.len() && s[i].id == id by {
            if id == s.last().id {
                assert(s[s.len() - 1].id == id);
            } else {
                assert(jmap(s) == jmap(s.drop_last()).insert(s.last().id, s.last()));
                assert(jmap(s.drop_last()).contains_key(id));
                let i = choose|i: int| 0 <= i < s.drop_last().len() && s.drop_last()[i].id == id;
                assert(s.drop_last()[i] == s[i]);
                assert(s[i].id == id);
            }
        }
        assert forall|id: Seq<char>|
            exists|i: int| 0 <= i < s.len() && s[i].id == id implies #[trigger] jmap(
            s,
        ).contains_key(id) by {
            let i = choose|i: int| 0 <= i < s.len() && s[i].id == id;
            if i < s.len() - 1 {
                assert(s.drop_last()[i].id == id);
                assert(jmap(s.drop_last()).contains_key(id));
                assert(jmap(s) == jmap(s.drop_last()).insert(s.last().id, s.last()));
            } else {
                assert(jmap(s).contains_key(s.last().id));
            }
        }
    }
}

/// With unique ids, `jmap(s)` maps each joint's id to that joint.
pub proof fn lemma_jmap_index(s: Seq<JointView>, i: int)
    requires
        ids_unique(s),
        0 <= i < s.len(),
    ensures
        jmap(s).contains_key(s[i].id),
        jmap(s)[s[i].id] == s[i],
    decreases s.len(),
{
    if i == s.len() - 1 {
    } else {
        assert(ids_unique(s.drop_last()));
        lemma_jmap_index(s.drop_last(), i);
        assert(s.drop_last()[i] == s[i]);
        assert(s[i].id != s.last().id);
    }
}

/// With unique ids, the id-indexed form has exactly one entry per joint.
pub proof fn lemma_jmap_len(s: Seq<JointView>)
    requires
        ids_unique(s),
    ensures
        jmap(s).dom().finite(),
        jmap(s).dom().len() == s.len(),
    decreases s.len(),
{
    if s.len() > 0 {
        assert(ids_unique(s.drop_last()));
        lemma_jmap_len(s.drop_last());
        lemma_jmap_dom(s.drop_last());
        assert(!jmap(s.drop_last()).contains_key(s.last().id)) by {
            if jmap(s.drop_last()).contains_key(s.last().id) {
                let i = choose|i: int|
                    0 <= i < s.drop_last().len() && s.drop_last()[i].id == s.last().id;
                assert(s[i].id == s[s.len() - 1].id);
            }
        }
        assert(jmap(s).dom() =~= jmap(s.drop_last()).dom().insert(s.last().id));
    }
}

/// Filtering a sequence extended by one element keeps the element exactly
/// when the predicate accepts it.
pub proof fn lemma_filter_push<A>(s: Seq<A>, x: A, pred: spec_fn(A) -> bool)
    ensures
        s.push(x).filter(pred) == (if pred(x) {
            s.filter(pred).push(x)
        } else {
            s.filter(pred)
        }),
{
    reveal(Seq::filter);
    assert(s.push(x).drop_last() =~= s);
    assert(s.push(x).last() == x);
}

// ---------------------------------------------------------------------------
// Fuel stability: once an ancestor chain ends within the given fuel, every
// larger fuel (indeed any fuel at least the chain's length) gives the same
// depth, world position and chain membership.
// ---------------------------------------------------------------------------

pub proof fn lemma_depth_le_fuel(m: Map<Seq<char>, JointView>, id: Seq<char>, fuel: nat)
    requires
        depth_via(m, id, fuel) is Some,
    ensures
        depth_via(m, id, fuel)->Some_0 <= fuel,
    decreases fuel,
{
    if m.contains_key(id) {
        match m[id].parent_id {
            Option::None => {},
            Option::Some(p) => {
                lemma_depth_le_fuel(m, p, (fuel - 1) as nat);
            },
        }
    }
}

pub proof fn lemma_depth_fuel(m: Map<Seq<char>, JointView>, id: Seq<char>, f1: nat, f2: nat)
    requires
        depth_via(m, id, f1) is Some,
        depth_via(m, id, f1)->Some_0 <= f2,
    ensures
        depth_via(m, id, f2) == depth_via(m, id, f1),
    decreases f1,
{
    if m.contains_key(id) {
        match m[id].parent_id {
            Option::None => {},
            Option::Some(p) => {
                lemma_depth_fuel(m, p, (f1 - 1) as nat, (f2 - 1) as nat);
            },
        }
    }
}

pub proof fn lemma_world_fuel(m: Map<Seq<char>, JointView>, id: Seq<char>, f1: nat, f2: nat)
    requires
        depth_via(m, id, f1) is Some,
        depth_via(m, id, f1)->Some_0 <= f2,
    ensures
        world_via(m, id, f2) == world_via(m, id, f1),
    decreases f1,
{
    if m.contains_key(id) {
        match m[id].parent_id {
            Option::None => {},
            Option::Some(p) => {
                lemma_depth_fuel(m, p, (f1 - 1) as nat, (f2 - 1) as nat);
                lemma_world_fuel(m, p, (f1 - 1) as nat, (f2 - 1) as nat);
            },
        }
    }
}

pub proof fn lemma_chain_fuel(
    m: Map<Seq<char>, JointView>,
    needle: Seq<char>,
    start: Seq<char>,
    f1: nat,
    f2: nat,
)
    requires
        depth_via(m, start, f1) is Some,
        depth_via(m, start, f1)->Some_0 <= f2,
    ensures
        chain_reaches(m, needle, start, f2) == chain_reaches(m, needle, start, f1),
    decreases f1,
{
    if start != needle && m.contains_key(start) {
        match m[start].parent_id {
            Option::None => {},
            Option::Some(p) => {
                lemma_chain_fuel(m, needle, p, (f1 - 1) as nat, (f2 - 1) as nat);
            },
        }
    }
}

// ---------------------------------------------------------------------------
// Chain preservation: an ancestor chain is determined by the entries of the
// ids it visits, so editing an entry away from the chain changes nothing.
// ---------------------------------------------------------------------------

/// An id outside the collection cannot occur on an ancestor chain that
/// starts inside it (parent links always resolve).
pub proof fn lemma_chain_absent(
    m: Map<Seq<char>, JointView>,
    k: Seq<char>,
    x: Seq<char>,
    fuel: nat,
)
    requires
        closed_map(m),
        m.contains_key(x),
        !m.contains_key(k),
    ensures
        !chain_reaches(m, k, x, fuel),
    decreases fuel,
{
    assert(x != k);
    match m[x].parent_id {
        Option::None => {},
        Option::Some(p) => {
            if fuel > 0 {
                lemma_chain_absent(m, k, p, (fuel - 1) as nat);
            }
        },
    }
}

/// Changing (or adding) the entry of an id that is not on `x`'s ancestor
/// chain leaves `x`'s depth, world position and chain membership untouched.
pub proof fn lemma_chain_preserved(
    m: Map<Seq<char>, JointView>,
    k: Seq<char>,
    v: JointView,
    needle: Seq<char>,
    x: Seq<char>,
    fuel: nat,
)
    requires
        depth_via(m, x, fuel) is Some,
        !chain_reaches(m, k, x, fuel),
    ensures
        depth_via(m.insert(k, v), x, fuel) == depth_via(m, x, fuel),
        world_via(m.insert(k, v), x, fuel) == world_via(m, x, fuel),
        chain_reaches(m.insert(k, v), needle, x, fuel) == chain_reaches(m, needle, x, fuel),
    decreases fuel,
{
    assert(x != k);
    match m[x].parent_id {
        Option::None => {},
        Option::Some(p) => {
            lemma_chain_preserved(m, k, v, needle, p, (fuel - 1) as nat);
        },
    }
}

/// Two fuels that both let the chain of `id` end give the same depth and
/// the same world position.
pub proof fn lemma_fuel_agree(m: Map<Seq<char>, JointView>, id: Seq<char>, f1: nat, f2: nat)
    requires
        depth_via(m, id, f1) is Some,
        depth_via(m, id, f2) is Some,
    ensures
        depth_via(m, id, f1) == depth_via(m, id, f2),
        world_via(m, id, f1) == world_via(m, id, f2),
{
    lemma_depth_le_fuel(m, id, f1);
    lemma_depth_fuel(m, id, f1, (f1 + f2) as nat);
    lemma_world_fuel(m, id, f1, (f1 + f2) as nat);
    lemma_depth_le_fuel(m, id, f2);
    lemma_depth_fuel(m, id, f2, (f1 + f2) as nat);
    lemma_world_fuel(m, id, f2, (f1 + f2) as nat);
}

/// Overwriting the entry of an id that a chain reaches leaves the part of
/// the chain up to that id intact.
pub proof fn lemma_chain_prefix_preserved(
    m: Map<Seq<char>, JointView>,
    k: Seq<char>,
    v: JointView,
    x: Seq<char>,
    fuel: nat,
)
    requires
        chain_reaches(m, k, x, fuel),
    ensures
        chain_reaches(m.insert(k, v), k, x, fuel),
    decreases fuel,
{
    if x != k {
        match m[x].parent_id {
            Option::None => {},
            Option::Some(p) => {
                lemma_chain_prefix_preserved(m, k, v, p, (fuel - 1) as nat);
            },
        }
    }
}

/// If the chain from `x` reaches `y` and `y`'s own chain ends, the chain
/// from `x` ends within the combined fuel.
pub proof fn lemma_depth_compose(
    m: Map<Seq<char>, JointView>,
    y: Seq<char>,
    x: Seq<char>,
    f1: nat,
    f2: nat,
)
    requires
        chain_reaches(m, y, x, f1),
        depth_via(m, y, f2) is Some,
    ensures
        depth_via(m, x, (f1 + f2) as nat) is Some,
    decreases f1,
{
    if x == y {
        lemma_depth_le_fuel(m, y, f2);
        lemma_depth_fuel(m, y, f2, (f1 + f2) as nat);
    } else {
        match m[x].parent_id {
            Option::None => {},
            Option::Some(p) => {
                lemma_depth_compose(m, y, p, (f1 - 1) as nat, f2);
            },
        }
    }
}

/// The ids on the ancestor chain of `x`, `x` included.
pub open spec fn chain_ids(m: Map<Seq<char>, JointView>, x: Seq<char>, fuel: nat) -> Set<Seq<char>>
    decreases fuel,
{
    if !m.contains_key(x) {
        Set::empty()
    } else {
        match m[x].parent_id {
            Option::None => Set::empty().insert(x),
            Option::Some(p) => if fuel == 0 {
                Set::empty().insert(x)
            } else {
                chain_ids(m, p, (fuel - 1) as nat).insert(x)
            },
        }
    }
}

/// A chain that ends within its fuel visits pairwise distinct ids: one more
/// id than it has hops, all of them in the collection.
pub proof fn lemma_chain_ids_card(m: Map<Seq<char>, JointView>, x: Seq<char>, fuel: nat)
    requires
        depth_via(m, x, fuel) is Some,
    ensures
        chain_ids(m, x, fuel).finite(),
        chain_ids(m, x, fuel).len() == depth_via(m, x, fuel)->Some_0 + 1,
        chain_ids(m, x, fuel).subset_of(m.dom()),
        forall|y: Seq<char>| #[trigger]
            chain_ids(m, x, fuel).contains(y) ==> depth_via(m, y, fuel) is Some && depth_via(
                m,
                y,
                fuel,
            )->Some_0 <= depth_via(m, x, fuel)->Some_0,
    decreases fuel,
{
    let k = depth_via(m, x, fuel)->Some_0;
    match m[x].parent_id {
        Option::None => {
            assert(chain_ids(m, x, fuel) =~= Set::empty().insert(x));
        },
        Option::Some(p) => {
            let sub = chain_ids(m, p, (fuel - 1) as nat);
            lemma_chain_ids_card(m, p, (fuel - 1) as nat);
            assert forall|y: Seq<char>| #[trigger] chain_ids(m, x, fuel).contains(y) implies depth_via(
                m,
                y,
                fuel,
            ) is Some && depth_via(m, y, fuel)->Some_0 <= k by {
                if y == x {
                } else {
                    assert(sub.contains(y));
                    lemma_depth_le_fuel(m, y, (fuel - 1) as nat);
                    lemma_depth_fuel(m, y, (fuel - 1) as nat, fuel);
                }
            }
            assert(!sub.contains(x)) by {
                if sub.contains(x) {
                    lemma_depth_le_fuel(m, x, (fuel - 1) as nat);
                    lemma_depth_fuel(m, x, (fuel - 1) as nat, fuel);
                }
            }
        },
    }
}

/// A chain that ends is shorter than the collection it runs through.
pub proof fn lemma_depth_lt_len(m: Map<Seq<char>, JointView>, x: Seq<char>, fuel: nat)
    requires
        depth_via(m, x, fuel) is Some,
        m.dom().finite(),
    ensures
        depth_via(m, x, fuel)->Some_0 < m.dom().len(),
{
    lemma_chain_ids_card(m, x, fuel);
    vstd::set_lib::lemma_len_subset(chain_ids(m, x, fuel), m.dom());
}

/// After a cycle-free reparent of `d` under `t`, every ancestor chain still
/// ends within the collection's size.
pub proof fn lemma_reparent_terminates(
    m: Map<Seq<char>, JointView>,
    d: Seq<char>,
    t: Seq<char>,
    upd: JointView,
    x: Seq<char>,
    n: nat,
)
    requires
        m.dom().finite(),
        m.dom().len() == n,
        m.contains_key(d),
        m.contains_key(t),
        m.contains_key(x),
        !chain_reaches(m, d, t, n),
        forall|y: Seq<char>| #[trigger] m.contains_key(y) ==> depth_via(m, y, n) is Some,
        upd.parent_id == Option::Some(t),
    ensures
        depth_via(m.insert(d, upd), x, n) is Some,
{
    let m1 = m.insert(d, upd);
    assert(m1.dom() =~= m.dom());
    lemma_chain_preserved(m, d, upd, d, t, n);
    let kt = depth_via(m, t, n)->Some_0;
    lemma_depth_le_fuel(m1, t, n);
    lemma_depth_fuel(m1, t, n, (kt + 1) as nat);
    assert(depth_via(m1, d, (kt + 2) as nat) == Option::Some((kt + 1) as nat));
    if x == d {
        lemma_depth_lt_len(m1, d, (kt + 2) as nat);
        lemma_depth_fuel(m1, d, (kt + 2) as nat, n);
    } else if chain_reaches(m, d, x, n) {
        lemma_chain_prefix_preserved(m, d, upd, x, n);
        lemma_depth_compose(m1, d, x, n, (kt + 2) as nat);
        lemma_depth_lt_len(m1, x, (n + kt + 2) as nat);
        lemma_depth_fuel(m1, x, (n + kt + 2) as nat, n);
    } else {
        lemma_chain_preserved(m, d, upd, d, x, n);
    }
}

/// Reparenting `d` under `t` with the recomputed local position leaves every
/// joint's world position exactly where it was.
pub proof fn lemma_reparent_world_preserved(
    m: Map<Seq<char>, JointView>,
    d: Seq<char>,
    t: Seq<char>,
    upd: JointView,
    x: Seq<char>,
    n: nat,
    fx: nat,
)
    requires
        m.contains_key(d),
        m.contains_key(t),
        !chain_reaches(m, d, t, n),
        forall|y: Seq<char>| #[trigger] m.contains_key(y) ==> depth_via(m, y, n) is Some,
        upd.parent_id == Option::Some(t),
        v3(upd.local_position) == sub3(world_via(m, d, n), world_via(m, t, n)),
        depth_via(m.insert(d, upd), x, fx) is Some,
    ensures
        world_via(m.insert(d, upd), x, fx) == world_via(m, x, n),
    decreases depth_via(m.insert(d, upd), x, fx)->Some_0,
{
    let m1 = m.insert(d, upd);
    if x == d {
        lemma_chain_preserved(m, d, upd, d, t, n);
        assert(depth_via(m1, t, (fx - 1) as nat) is Some);
        lemma_fuel_agree(m1, t, (fx - 1) as nat, n);
        assert(world_via(m1, t, (fx - 1) as nat) == world_via(m, t, n));
        assert(world_via(m1, x, fx) == add3(
            v3(upd.local_position),
            world_via(m1, t, (fx - 1) as nat),
        ));
        assert(world_via(m1, x, fx) == world_via(m, x, n));
    } else {
        assert(m.contains_key(x));
        assert(m1[x] == m[x]);
        match m[x].parent_id {
            Option::None => {},
            Option::Some(p) => {
                lemma_reparent_world_preserved(m, d, t, upd, p, n, (fx - 1) as nat);
                assert(depth_via(m, x, n) is Some);
                assert(depth_via(m, p, (n - 1) as nat) is Some);
                lemma_depth_le_fuel(m, p, (n - 1) as nat);
                lemma_world_fuel(m, p, (n - 1) as nat, n);
            },
        }
    }
}

/// Replacing `d`'s entry by `upd` and moving it to the slot `t` occupied is,
/// as an id-indexed map, one single update.
pub proof fn lemma_jmap_replace_move(s: Seq<JointView>, dp: int, tp: int, upd: JointView)
    requires
        ids_unique(s),
        0 <= dp < s.len(),
        0 <= tp < s.len(),
        upd.id == s[dp].id,
    ensures
        ({
            let s1 = s.remove(dp).insert(tp, upd);
            &&& s1.len() == s.len()
            &&& ids_unique(s1)
            &&& jmap(s1) == jmap(s).insert(upd.id, upd)
        }),
{
    let s2 = s.remove(dp);
    let s1 = s2.insert(tp, upd);
    // Where each element of the rearranged sequence came from.
    let orig = |i: int|
        {
            let j = if i < tp {
                i
            } else {
                i - 1
            };
            if j < dp {
                j
            } else {
                j + 1
            }
        };
    assert forall|i: int| 0 <= i < s1.len() && i != tp implies 0 <= orig(i) < s.len() && orig(i)
        != dp && s1[i] == s[orig(i)] by {}
    assert(s1[tp] == upd);
    assert(ids_unique(s1)) by {
        assert forall|i: int, j: int| 0 <= i < j < s1.len() implies s1[i].id != s1[j].id by {
            if i == tp {
                assert(s1[j].id == s[orig(j)].id);
                if upd.id == s[orig(j)].id {
                    if dp < orig(j) {
                        assert(s[dp].id != s[orig(j)].id);
                    } else {
                        assert(s[orig(j)].id != s[dp].id);
                    }
                }
            } else if j == tp {
                assert(s1[i].id == s[orig(i)].id);
                if upd.id == s[orig(i)].id {
                    if dp < orig(i) {
                        assert(s[dp].id != s[orig(i)].id);
                    } else {
                        assert(s[orig(i)].id != s[dp].id);
                    }
                }
            } else {
                assert(s1[i] == s[orig(i)]);
                assert(s1[j] == s[orig(j)]);
                assert(orig(i) != orig(j));
            }
        }
    }
    lemma_jmap_dom(s);
    lemma_jmap_dom(s1);
    let target = jmap(s).insert(upd.id, upd);
    assert forall|id: Seq<char>| #[trigger] jmap(s1).contains_key(id) implies target.contains_key(
        id,
    ) && jmap(s1)[id] == target[id] by {
        let i = choose|i: int| 0 <= i < s1.len() && s1[i].id == id;
        lemma_jmap_index(s1, i);
        if i == tp {
            assert(jmap(s1)[id] == upd);
        } else {
            assert(s1[i] == s[orig(i)]);
            assert(jmap(s).contains_key(id));
            lemma_jmap_index(s, orig(i));
            assert(id != upd.id) by {
                if id == upd.id {
                    if dp < orig(i) {
                        assert(s[dp].id != s[orig(i)].id);
                    } else {
                        assert(s[orig(i)].id != s[dp].id);
                    }
                }
            }
            assert(target[id] == jmap(s)[id]);
        }
    }
    assert forall|id: Seq<char>| #[trigger] target.contains_key(id) implies jmap(s1).contains_key(
        id,
    ) by {
        if id == upd.id {
            assert(s1[tp].id == id);
        } else {
            assert(jmap(s).contains_key(id));
            let j = choose|j: int| 0 <= j < s.len() && s[j].id == id;
            assert(j != dp);
            let j2 = if j < dp {
                j
            } else {
                j - 1
            };
            let i = if j2 < tp {
                j2
            } else {
                j2 + 1
            };
            assert(orig(i) == j);
            assert(s1[i].id == id);
        }
    }
    assert(jmap(s1) =~= target);
}

/// Anything on `x`'s ancestor chain sits at most as deep as `x`.
pub proof fn lemma_chain_depth_le(
    m: Map<Seq<char>, JointView>,
    y: Seq<char>,
    x: Seq<char>,
    fuel: nat,
)
    requires
        chain_reaches(m, y, x, fuel),
        depth_via(m, x, fuel) is Some,
    ensures
        depth_via(m, y, fuel) is Some,
        depth_via(m, y, fuel)->Some_0 <= depth_via(m, x, fuel)->Some_0,
    decreases fuel,
{
    if x != y {
        match m[x].parent_id {
            Option::None => {},
            Option::Some(p) => {
                lemma_chain_depth_le(m, y, p, (fuel - 1) as nat);
                lemma_depth_le_fuel(m, y, (fuel - 1) as nat);
                lemma_depth_fuel(m, y, (fuel - 1) as nat, fuel);
            },
        }
    }
}

/// A cycle-free reparent keeps the collection well-formed, is one single
/// update of the id-indexed form, and moves no joint's world position.
pub proof fn lemma_reparented_wf(s: Seq<JointView>, d: Seq<char>, t: Seq<char>)
    requires
        wf_seq(s),
        jmap(s).contains_key(d),
        jmap(s).contains_key(t),
        !chain_reaches(jmap(s), d, t, s.len() as nat),
    ensures
        ({
            let s1 = reparented(s, d, t);
            &&& s1.len() == s.len()
            &&& wf_seq(s1)
            &&& jmap(s1) == jmap(s).insert(d, reparented_joint(s, d, t))
            &&& (forall|id: Seq<char>| #[trigger]
                jmap(s1).contains_key(id) <==> jmap(s).contains_key(id))
            &&& (forall|id: Seq<char>| #[trigger]
                jmap(s).contains_key(id) ==> world_via(jmap(s1), id, s.len() as nat) == world_via(
                    jmap(s),
                    id,
                    s.len() as nat,
                ))
        }),
{
    let m0 = jmap(s);
    let n = s.len() as nat;
    let uv = reparented_joint(s, d, t);
    lemma_jmap_dom(s);
    let dp = idx_of(s, d);
    let tp = idx_of(s, t);
    assert(0 <= dp < s.len() && s[dp].id == d);
    assert(0 <= tp < s.len() && s[tp].id == t);
    lemma_jmap_replace_move(s, dp, tp, uv);
    let s1 = reparented(s, d, t);
    let m1 = jmap(s1);
    lemma_jmap_len(s);
    assert(m1.dom() =~= m0.dom());
    assert(in_world_bounds(world_via(m0, d, n)));
    assert(in_world_bounds(world_via(m0, t, n)));
    assert(v3(uv.local_position) == sub3(world_via(m0, d, n), world_via(m0, t, n)));
    assert(closed_map(m1)) by {
        assert forall|id: Seq<char>| #[trigger] m1.contains_key(id) implies match m1[id].parent_id {
            Option::Some(p) => m1.contains_key(p),
            Option::None => true,
        } by {
            if id != d {
                assert(m0.contains_key(id));
                assert(m1[id] == m0[id]);
            }
        }
    }
    assert forall|id: Seq<char>| #[trigger] m1.contains_key(id) implies depth_via(
        m1,
        id,
        n,
    ) is Some && world_via(m1, id, n) == world_via(m0, id, n) && in_world_bounds(
        world_via(m1, id, n),
    ) by {
        assert(m0.contains_key(id));
        lemma_reparent_terminates(m0, d, t, uv, id, n);
        lemma_reparent_world_preserved(m0, d, t, uv, id, n, n);
    }
}

// ---------------------------------------------------------------------------
// The hierarchy
// ---------------------------------------------------------------------------

/// The ordered collection of joints that the editor mutates and the tree
/// view renders. Order encodes the displayed arrangement; depth is derived
/// from parent links on demand, never cached.
pub struct JointHierarchy {
    joints: Vec<Joint>,
}

impl View for JointHierarchy {
    type V = Seq<JointView>;

    closed spec fn view(&self) -> Seq<JointView> {
        self.joints@.map_values(|j: Joint| j@)
    }
}

impl JointHierarchy {
    pub open spec fn wf(&self) -> bool {
        wf_seq(self@)
    }

    /// Fresh, empty hierarchy (skeleton import populates it afterwards).
    pub fn new() -> (r: JointHierarchy)
        ensures
            r@ =~= Seq::<JointView>::empty(),
            r.wf(),
    {
        let r = JointHierarchy { joints: Vec::new() };
        proof {
            assert(r@ =~= Seq::<JointView>::empty());
        }
        r
    }

    /// Read-only access to the ordered collection.
    pub fn joints(&self) -> (r: &Vec<Joint>)
        ensures
            r@.map_values(|j: Joint| j@) == self@,
    {
        &self.joints
    }

    pub fn len(&self) -> (r: usize)
        ensures
            r == self@.len(),
    {
        self.joints.len()
    }

    /// Index of the joint carrying `id`, if any.
    fn find_index(&self, id: &String) -> (r: Option<usize>)
        ensures
            match r {
                Option::Some(i) => i < self@.len() && self@[i as int].id == id@ && (forall|j: int|
                    0 <= j < i ==> self@[j].id != id@),
                Option::None => forall|j: int| 0 <= j < self@.len() ==> self@[j].id != id@,
            },
    {
        let n = self.joints.len();
        let mut i: usize = 0;
        while i < n
            invariant
                n == self.joints@.len(),
                i <= n,
                forall|j: int| 0 <= j < i ==> self@[j].id != id@,
            decreases n - i,
        {
            if self.joints[i].id == *id {
                return Option::Some(i);
            }
            i += 1;
        }
        Option::None
    }

    /// Appends one joint (skeleton import builds hierarchies this way).
    /// Succeeds exactly when there is room, the id is fresh, the parent link
    /// resolves, and the joint's world position stays in fixed-point range.
    pub fn add_joint(&mut self, joint: Joint) -> (r: Result<(), AddJointError>)
        requires
            old(self).wf(),
        ensures
            final(self).wf(),
            match r {
                Result::Ok(()) => {
                    &&& old(self)@.len() < MAX_JOINTS
                    &&& !jmap(old(self)@).contains_key(joint@.id)
                    &&& (joint@.parent_id matches Option::Some(p) ==> jmap(
                        old(self)@,
                    ).contains_key(p))
                    &&& in_world_bounds(world_of_new_joint(old(self)@, joint@))
                    &&& final(self)@ == old(self)@.push(joint@)
                },
                Result::Err(AddJointError::CapacityExceeded) => final(self)@ == old(self)@ && old(
                    self,
                )@.len() >= MAX_JOINTS,
                Result::Err(AddJointError::DuplicateId) => final(self)@ == old(self)@ && old(
                    self,
                )@.len() < MAX_JOINTS && jmap(old(self)@).contains_key(joint@.id),
                Result::Err(AddJointError::ParentNotFound) => {
                    &&& final(self)@ == old(self)@
                    &&& old(self)@.len() < MAX_JOINTS
                    &&& !jmap(old(self)@).contains_key(joint@.id)
                    &&& joint@.parent_id matches Option::Some(p) && !jmap(
                        old(self)@,
                    ).contains_key(p)
                },
                Result::Err(AddJointError::PositionOutOfRange) => {
                    &&& final(self)@ == old(self)@
                    &&& old(self)@.len() < MAX_JOINTS
                    &&& !jmap(old(self)@).contains_key(joint@.id)
                    &&& (joint@.parent_id matches Option::Some(p) ==> jmap(
                        old(self)@,
                    ).contains_key(p))
                    &&& !in_world_bounds(world_of_new_joint(old(self)@, joint@))
                },
            },
    {
        let ghost s0 = self@;
        let ghost m0 = jmap(s0);
        let ghost n = s0.len() as nat;
        if self.joints.len() >= MAX_JOINTS {
            return Result::Err(AddJointError::CapacityExceeded);
        }
        if self.contains_id(&joint.id) {
            return Result::Err(AddJointError::DuplicateId);
        }
        let parent_world: Vec3 = match &joint.parent_id {
            Option::None => Vec3 { x: 0, y: 0, z: 0 },
            Option::Some(p) => {
                match self.get_world_position(p) {
                    Option::None => {
                        return Result::Err(AddJointError::ParentNotFound);
                    },
                    Option::Some(w) => w,
                }
            },
        };
        proof {
            assert(joint@.parent_id matches Option::Some(p) ==> v3(parent_world) == world_via(
                m0,
                p,
                n,
            ) && in_world_bounds(v3(parent_world)));
            assert(joint@.parent_id is None ==> v3(parent_world) == (0int, 0int, 0int));
        }
        // A local position beyond twice the world bound cannot land inside
        // the world bound, whatever the parent contributes.
        let lp = joint.local_position;
        if lp.x < -2 * WORLD_LIMIT || lp.x > 2 * WORLD_LIMIT || lp.y < -2 * WORLD_LIMIT || lp.y > 2
            * WORLD_LIMIT || lp.z < -2 * WORLD_LIMIT || lp.z > 2 * WORLD_LIMIT {
            return Result::Err(AddJointError::PositionOutOfRange);
        }
        let wx = lp.x + parent_world.x;
        let wy = lp.y + parent_world.y;
        let wz = lp.z + parent_world.z;
        if wx < -WORLD_LIMIT || wx > WORLD_LIMIT || wy < -WORLD_LIMIT || wy > WORLD_LIMIT || wz
            < -WORLD_LIMIT || wz > WORLD_LIMIT {
            return Result::Err(AddJointError::PositionOutOfRange);
        }
        proof {
            assert(in_world_bounds(world_of_new_joint(s0, joint@)));
        }
        let ghost jv = joint@;
        self.joints.push(joint);
        proof {
            assert(self@ =~= s0.push(jv));
            let s1 = self@;
            let m1 = jmap(s1);
            assert(s1.drop_last() =~= s0);
            assert(m1 == m0.insert(jv.id, jv));
            lemma_jmap_dom(s0);
            assert(ids_unique(s1)) by {
                assert forall|i: int, j: int| 0 <= i < j < s1.len() implies s1[i].id != s1[j].id by {
                    if j == s1.len() - 1 {
                        if s1[i].id == jv.id {
                            assert(s0[i].id == jv.id);
                            assert(m0.contains_key(jv.id));
                        }
                    }
                }
            }
            assert(closed_map(m1)) by {
                assert forall|id: Seq<char>| #[trigger] m1.contains_key(id) implies match m1[id].parent_id {
                    Option::Some(p) => m1.contains_key(p),
                    Option::None => true,
                } by {
                    if id != jv.id {
                        assert(m0.contains_key(id));
                        assert(m1[id] == m0[id]);
                    }
                }
            }
            let n1 = s1.len() as nat;
            assert forall|id: Seq<char>| #[trigger] m1.contains_key(id) implies depth_via(
                m1,
                id,
                n1,
            ) is Some && in_world_bounds(world_via(m1, id, n1)) by {
                if id == jv.id {
                    match jv.parent_id {
                        Option::None => {
                            assert(depth_via(m1, id, n1) == Option::Some(0 as nat));
                            assert(world_via(m1, id, n1) == v3(jv.local_position));
                        },
                        Option::Some(p) => {
                            assert(m0.contains_key(p));
                            lemma_chain_absent(m0, jv.id, p, n);
                            lemma_chain_preserved(m0, jv.id, jv, jv.id, p, n);
                            assert(depth_via(m1, p, n) is Some);
                            assert(world_via(m1, p, n) == world_via(m0, p, n));
                            assert(depth_via(m1, id, n1) is Some);
                            assert(world_via(m1, id, n1) == add3(
                                v3(jv.local_position),
                                world_via(m1, p, n),
                            ));
                            assert(world_via(m1, id, n1) == world_of_new_joint(s0, jv));
                        },
                    }
                } else {
                    assert(m0.contains_key(id));
                    lemma_chain_absent(m0, jv.id, id, n);
                    lemma_chain_preserved(m0, jv.id, jv, jv.id, id, n);
                    assert(depth_via(m1, id, n) == depth_via(m0, id, n));
                    lemma_depth_le_fuel(m1, id, n);
                    lemma_depth_fuel(m1, id, n, n1);
                    lemma_world_fuel(m1, id, n, n1);
                }
            }
        }
        Result::Ok(())
    }

    /// The reparent transaction: re-hang `dragged_id` under `target_id`.
    ///
    /// All-or-nothing: on any error the collection is bit-for-bit unchanged.
    /// `NotFound` when either id is absent; `CycleDetected` when the target
    /// sits in the dragged joint's own subtree or is the dragged joint
    /// itself (checked before any mutation). On success the dragged joint's
    /// parent becomes the target, its local position becomes the difference
    /// of the two previous world positions (so its own world position stays
    /// put; descendants keep their parent-relative coordinates untouched),
    /// and it moves to the slot the target occupied.
    pub fn reparent(&mut self, dragged_id: &String, target_id: &String) -> (r: Result<
        (),
        ReparentError,
    >)
        requires
            old(self).wf(),
        ensures
            final(self).wf(),
            match r {
                Result::Ok(()) => reparent_spec(old(self)@, dragged_id@, target_id@)
                    == Result::<Seq<JointView>, ReparentError>::Ok(final(self)@),
                Result::Err(e) => final(self)@ == old(self)@ && reparent_spec(
                    old(self)@,
                    dragged_id@,
                    target_id@,
                ) == Result::<Seq<JointView>, ReparentError>::Err(e),
            },
    {
        let ghost s0 = self@;
        let ghost m0 = jmap(s0);
        let ghost n = s0.len() as nat;
        proof {
            lemma_jmap_dom(s0);
        }
        let dp = match self.find_index(dragged_id) {
            Option::None => {
                return Result::Err(ReparentError::NotFound);
            },
            Option::Some(i) => i,
        };
        let tp = match self.find_index(target_id) {
            Option::None => {
                return Result::Err(ReparentError::NotFound);
            },
            Option::Some(i) => i,
        };
        if self.would_create_cycle(dragged_id, target_id) {
            return Result::Err(ReparentError::CycleDetected);
        }
        let new_local = match self.calculate_new_local_position(dragged_id, target_id) {
            Option::None => {
                proof {
                    assert(false);
                }
                return Result::Err(ReparentError::NotFound);
            },
            Option::Some(v) => v,
        };
        let dragged = &self.joints[dp];
        let upd = Joint {
            id: dragged.id.clone(),
            name: dragged.name.clone(),
            parent_id: Option::Some(target_id.clone()),
            local_position: new_local,
            rotation: dragged.rotation,
            scale: dragged.scale,
        };
        let ghost uv = upd@;
        proof {
            assert(uv.id == s0[dp as int].id);
            assert(dp as int == idx_of(s0, dragged_id@)) by {
                let c = idx_of(s0, dragged_id@);
                assert(0 <= c < s0.len() && s0[c].id == dragged_id@);
                if c != dp as int {
                    if c < dp as int {
                        assert(s0[c].id != s0[dp as int].id);
                    } else {
                        assert(s0[dp as int].id != s0[c].id);
                    }
                }
            }
            assert(tp as int == idx_of(s0, target_id@)) by {
                let c = idx_of(s0, target_id@);
                assert(0 <= c < s0.len() && s0[c].id == target_id@);
                if c != tp as int {
                    if c < tp as int {
                        assert(s0[c].id != s0[tp as int].id);
                    } else {
                        assert(s0[tp as int].id != s0[c].id);
                    }
                }
            }
            assert(uv == (JointView {
                id: s0[dp as int].id,
                name: s0[dp as int].name,
                parent_id: Option::Some(target_id@),
                local_position: Vec3 {
                    x: sub3(world_via(m0, dragged_id@, n), world_via(m0, target_id@, n)).0 as i64,
                    y: sub3(world_via(m0, dragged_id@, n), world_via(m0, target_id@, n)).1 as i64,
                    z: sub3(world_via(m0, dragged_id@, n), world_via(m0, target_id@, n)).2 as i64,
                },
                rotation: s0[dp as int].rotation,
                scale: s0[dp as int].scale,
            }));
        }
        let _removed = self.joints.remove(dp);
        self.joints.insert(tp, upd);
        proof {
            assert(self@ =~= s0.remove(dp as int).insert(tp as int, uv)) by {
                assert forall|i: int| 0 <= i < self@.len() implies self@[i] == s0.remove(
                    dp as int,
                ).insert(tp as int, uv)[i] by {}
            }
            assert(uv == reparented_joint(s0, dragged_id@, target_id@));
            lemma_reparented_wf(s0, dragged_id@, target_id@);
            assert(reparented(s0, dragged_id@, target_id@) == self@);
        }
        Result::Ok(())
    }

    /// Would hanging `dragged_id` under `new_parent_id` create a loop?
    /// Walks the ancestor chain that starts at `new_parent_id` and reports
    /// whether `dragged_id` occurs on it (the chain includes
    /// `new_parent_id` itself, so dragging a joint onto itself counts).
    pub fn would_create_cycle(&self, dragged_id: &String, new_parent_id: &String) -> (r: bool)
        requires
            self.wf(),
        ensures
            r == chain_reaches(jmap(self@), dragged_id@, new_parent_id@, self@.len() as nat),
    {
        let ghost m = jmap(self@);
        let ghost n = self@.len() as nat;
        let mut cur: &String = new_parent_id;
        loop
            invariant
                self.wf(),
                m == jmap(self@),
                n == self@.len() as nat,
                chain_reaches(m, dragged_id@, new_parent_id@, n) == chain_reaches(
                    m,
                    dragged_id@,
                    cur@,
                    n,
                ),
            decreases (if m.contains_key(cur@) {
                depth_via(m, cur@, n)->Some_0
            } else {
                0 as nat
            }),
        {
            if *cur == *dragged_id {
                proof {
                    assert(chain_reaches(m, dragged_id@, cur@, n));
                }
                return true;
            }
            match self.find_index(cur) {
                Option::None => {
                    proof {
                        lemma_jmap_dom(self@);
                        assert(!jmap(self@).contains_key(cur@));
                        assert(!chain_reaches(m, dragged_id@, cur@, n));
                    }
                    return false;
                },
                Option::Some(i) => {
                    proof {
                        lemma_jmap_index(self@, i as int);
                    }
                    match &self.joints[i].parent_id {
                        Option::None => {
                            return false;
                        },
                        Option::Some(p) => {
                            proof {
                                lemma_depth_le_fuel(m, cur@, n);
                                lemma_depth_fuel(m, p@, (n - 1) as nat, n);
                                lemma_chain_fuel(m, dragged_id@, p@, (n - 1) as nat, n);
                            }
                            cur = p;
                        },
                    }
                },
            }
        }
    }

    /// Number of ancestor hops from `id` to its root; `None` when `id` is
    /// absent. Recomputed on demand, never cached.
    pub fn depth(&self, id: &String) -> (r: Option<usize>)
        requires
            self.wf(),
        ensures
            match r {
                Option::Some(k) => depth_via(jmap(self@), id@, self@.len() as nat) == Option::Some(
                    k as nat,
                ),
                Option::None => !jmap(self@).contains_key(id@),
            },
            r is Some <==> jmap(self@).contains_key(id@),
    {
        let ghost m = jmap(self@);
        let ghost n = self@.len() as nat;
        proof {
            lemma_jmap_dom(self@);
        }
        let mut i: usize = match self.find_index(id) {
            Option::None => {
                return Option::None;
            },
            Option::Some(i) => i,
        };
        proof {
            lemma_jmap_index(self@, i as int);
        }
        let mut d: usize = 0;
        loop
            invariant
                self.wf(),
                m == jmap(self@),
                n == self@.len() as nat,
                i < self@.len(),
                depth_via(m, self@[i as int].id, n) is Some,
                depth_via(m, id@, n) == Option::Some(
                    (d + depth_via(m, self@[i as int].id, n)->Some_0) as nat,
                ),
                jmap(self@).contains_key(id@),
            decreases depth_via(m, self@[i as int].id, n)->Some_0,
        {
            proof {
                lemma_jmap_index(self@, i as int);
                lemma_depth_le_fuel(m, id@, n);
            }
            match &self.joints[i].parent_id {
                Option::None => {
                    return Option::Some(d);
                },
                Option::Some(p) => {
                    proof {
                        lemma_depth_fuel(m, p@, (n - 1) as nat, n);
                        lemma_jmap_dom(self@);
                    }
                    match self.find_index(p) {
                        Option::None => {
                            proof {
                                assert(false);
                            }
                            return Option::None;
                        },
                        Option::Some(j) => {
                            proof {
                                lemma_jmap_index(self@, j as int);
                            }
                            d = d + 1;
                            i = j;
                        },
                    }
                },
            }
        }
    }

    /// World position of `id`: the sum of local positions along its
    /// ancestor chain (rotation and scale deliberately not composed in).
    /// `None` when `id` is absent.
    pub fn get_world_position(&self, id: &String) -> (r: Option<Vec3>)
        requires
            self.wf(),
        ensures
            match r {
                Option::Some(w) => jmap(self@).contains_key(id@) && v3(w) == world_via(
                    jmap(self@),
                    id@,
                    self@.len() as nat,
                ),
                Option::None => !jmap(self@).contains_key(id@),
            },
            r is Some <==> jmap(self@).contains_key(id@),
    {
        let ghost m = jmap(self@);
        let ghost n = self@.len() as nat;
        proof {
            lemma_jmap_dom(self@);
        }
        let mut i: usize = match self.find_index(id) {
            Option::None => {
                return Option::None;
            },
            Option::Some(i) => i,
        };
        proof {
            lemma_jmap_index(self@, i as int);
        }
        let mut acc: Vec3 = self.joints[i].local_position;
        loop
            invariant
                self.wf(),
                m == jmap(self@),
                n == self@.len() as nat,
                i < self@.len(),
                m.contains_key(id@),
                depth_via(m, self@[i as int].id, n) is Some,
                add3(
                    sub3(v3(acc), v3(self@[i as int].local_position)),
                    world_via(m, self@[i as int].id, n),
                ) == world_via(m, id@, n),
            decreases depth_via(m, self@[i as int].id, n)->Some_0,
        {
            proof {
                lemma_jmap_index(self@, i as int);
            }
            match &self.joints[i].parent_id {
                Option::None => {
                    proof {
                        assert(world_via(m, self@[i as int].id, n) == v3(
                            self@[i as int].local_position,
                        ));
                    }
                    return Option::Some(acc);
                },
                Option::Some(p) => {
                    proof {
                        assert(m[self@[i as int].id].parent_id == Option::Some(p@));
                        assert(depth_via(m, p@, (n - 1) as nat) is Some);
                        lemma_depth_le_fuel(m, p@, (n - 1) as nat);
                        lemma_depth_fuel(m, p@, (n - 1) as nat, n);
                        lemma_world_fuel(m, p@, (n - 1) as nat, n);
                        lemma_jmap_dom(self@);
                    }
                    match self.find_index(p) {
                        Option::None => {
                            proof {
                                assert(false);
                            }
                            return Option::None;
                        },
                        Option::Some(j) => {
                            proof {
                                lemma_jmap_index(self@, j as int);
                                // With a parent in hand, the accumulator so far is
                                // world(id) - world(p); adding p's local position
                                // lands on world(id) - world(grandparent chain),
                                // which two world bounds keep inside i64.
                                let wstart = world_via(m, id@, n);
                                let wp = world_via(m, p@, n);
                                assert(world_via(m, self@[i as int].id, n) == add3(
                                    v3(self@[i as int].local_position),
                                    world_via(m, p@, (n - 1) as nat),
                                ));
                                assert(add3(v3(acc), wp) == wstart);
                                assert(in_world_bounds(wstart));
                                assert(in_world_bounds(wp));
                                match m[p@].parent_id {
                                    Option::None => {
                                        assert(wp == v3(self@[j as int].local_position));
                                    },
                                    Option::Some(gp) => {
                                        assert(m.contains_key(gp));
                                        assert(depth_via(m, gp, (n - 1) as nat) is Some);
                                        lemma_world_fuel(m, gp, (n - 1) as nat, n);
                                        assert(wp == add3(
                                            v3(self@[j as int].local_position),
                                            world_via(m, gp, n),
                                        ));
                                        assert(in_world_bounds(world_via(m, gp, n)));
                                    },
                                }
                            }
                            acc =
                            Vec3 {
                                x: acc.x + self.joints[j].local_position.x,
                                y: acc.y + self.joints[j].local_position.y,
                                z: acc.z + self.joints[j].local_position.z,
                            };
                            i = j;
                        },
                    }
                },
            }
        }
    }

    /// Local position `child` would need so that, hanging under
    /// `new_parent`, its world position stays where it is now: the
    /// component-wise difference of the two current world positions.
    pub fn calculate_new_local_position(&self, child_id: &String, new_parent_id: &String) -> (r:
        Option<Vec3>)
        requires
            self.wf(),
        ensures
            match r {
                Option::Some(v) => jmap(self@).contains_key(child_id@) && jmap(
                    self@,
                ).contains_key(new_parent_id@) && v3(v) == sub3(
                    world_via(jmap(self@), child_id@, self@.len() as nat),
                    world_via(jmap(self@), new_parent_id@, self@.len() as nat),
                ),
                Option::None => !jmap(self@).contains_key(child_id@) || !jmap(
                    self@,
                ).contains_key(new_parent_id@),
            },
    {
        let wc = match self.get_world_position(child_id) {
            Option::None => {
                return Option::None;
            },
            Option::Some(w) => w,
        };
        let wp = match self.get_world_position(new_parent_id) {
            Option::None => {
                return Option::None;
            },
            Option::Some(w) => w,
        };
        proof {
            assert(in_world_bounds(world_via(jmap(self@), child_id@, self@.len() as nat)));
            assert(in_world_bounds(world_via(jmap(self@), new_parent_id@, self@.len() as nat)));
        }
        Option::Some(Vec3 { x: wc.x - wp.x, y: wc.y - wp.y, z: wc.z - wp.z })
    }

    /// Ids of every joint whose ancestor chain includes `id`, in collection
    /// order (the whole affected subtree of a drag). Empty when `id` is
    /// absent or a leaf.
    pub fn descendants_of(&self, id: &String) -> (r: Vec<String>)
        requires
            self.wf(),
        ensures
            r@.map_values(|x: String| x@) == descendant_ids(self@, id@),
    {
        let ghost m = jmap(self@);
        let ghost n = self@.len() as nat;
        let ghost pred = |x: Seq<char>| is_descendant(jmap(self@), x, id@, self@.len() as nat);
        let mut r: Vec<String> = Vec::new();
        proof {
            reveal(Seq::filter);
            assert(r@.map_values(|x: String| x@) =~= joint_ids(self@).take(0).filter(pred));
        }
        let count = self.joints.len();
        let mut i: usize = 0;
        while i < count
            invariant
                self.wf(),
                m == jmap(self@),
                n == self@.len() as nat,
                pred == (|x: Seq<char>| is_descendant(
                    jmap(self@),
                    x,
                    id@,
                    self@.len() as nat,
                )),
                count == self@.len(),
                i <= count,
                r@.map_values(|x: String| x@) == joint_ids(self@).take(i as int).filter(pred),
            decreases count - i,
        {
            let candidate = &self.joints[i];
            let is_desc = if candidate.id == *id {
                false
            } else {
                self.would_create_cycle(id, &candidate.id)
            };
            proof {
                assert(joint_ids(self@)[i as int] == self@[i as int].id);
                assert(is_desc == pred(self@[i as int].id));
            }
            let ghost prev = r@;
            if is_desc {
                r.push(candidate.id.clone());
                proof {
                    assert(r@.map_values(|x: String| x@) =~= prev.map_values(
                        |x: String| x@,
                    ).push(self@[i as int].id));
                }
            }
            proof {
                lemma_filter_push(joint_ids(self@).take(i as int), self@[i as int].id, pred);
                assert(joint_ids(self@).take(i as int).push(self@[i as int].id) =~= joint_ids(
                    self@,
                ).take(i as int + 1));
            }
            i += 1;
        }
        proof {
            assert(joint_ids(self@).take(count as int) =~= joint_ids(self@));
        }
        r
    }

    /// Indentation of a joint's row in the tree view: 20 pixels per level
    /// of depth. (Any depth the collection can produce stays far below the
    /// bound.)
    pub fn indent_for_depth(depth: usize) -> (r: usize)
        requires
            depth <= MAX_JOINTS,
        ensures
            r == 20 * depth,
    {
        20 * depth
    }

    /// Does the collection hold a joint with this id?
    pub fn contains_id(&self, id: &String) -> (r: bool)
        ensures
            r == jmap(self@).contains_key(id@),
    {
        proof {
            lemma_jmap_dom(self@);
        }
        match self.find_index(id) {
            Option::Some(_) => true,
            Option::None => false,
        }
    }
}

/// An id occurs among the descendant ids exactly when it names a joint of
/// the collection whose ancestor chain passes through `root`.
pub proof fn lemma_descendant_ids_membership(s: Seq<JointView>, root: Seq<char>, x: Seq<char>)
    ensures
        descendant_ids(s, root).contains(x) <==> (jmap(s).contains_key(x) && is_descendant(
            jmap(s),
            x,
            root,
            s.len() as nat,
        )),
{
    lemma_jmap_dom(s);
    let ids = joint_ids(s);
    let pred = |y: Seq<char>| is_descendant(jmap(s), y, root, s.len() as nat);
    if descendant_ids(s, root).contains(x) {
        let i = choose|i: int|
            0 <= i < ids.filter(pred).len() && ids.filter(pred)[i] == x;
        ids.lemma_filter_pred(pred, i);
        assert(is_descendant(jmap(s), x, root, s.len() as nat));
        // a chain that starts anywhere but `root` only holds existing ids
        assert(jmap(s).contains_key(x));
    }
    if jmap(s).contains_key(x) && is_descendant(jmap(s), x, root, s.len() as nat) {
        let i = choose|i: int| 0 <= i < s.len() && s[i].id == x;
        assert(ids[i] == x);
        ids.lemma_filter_contains(pred, i);
    }
}

// ---------------------------------------------------------------------------
// Laws of the reparent transaction
// ---------------------------------------------------------------------------

/// For any two existing joints with no ancestor relation (the dragged joint
/// does not occur on the target's ancestor chain), the reparent succeeds,
/// and afterwards the dragged joint's parent is the target.
pub proof fn lemma_reparent_unrelated_succeeds(s: Seq<JointView>, a: Seq<char>, b: Seq<char>)
    requires
        wf_seq(s),
        jmap(s).contains_key(a),
        jmap(s).contains_key(b),
        !chain_reaches(jmap(s), a, b, s.len() as nat),
    ensures
        reparent_spec(s, a, b) is Ok,
        jmap(reparent_spec(s, a, b)->Ok_0).contains_key(a),
        jmap(reparent_spec(s, a, b)->Ok_0)[a].parent_id == Option::Some(b),
{
    lemma_jmap_dom(s);
    let dp = idx_of(s, a);
    assert(0 <= dp < s.len() && s[dp].id == a);
    lemma_reparented_wf(s, a, b);
}

/// Reparenting a joint onto one of its own descendants is rejected with
/// `CycleDetected`; `reparent`'s contract then leaves the collection
/// bit-for-bit unchanged.
pub proof fn lemma_reparent_descendant_rejected(s: Seq<JointView>, a: Seq<char>, b: Seq<char>)
    requires
        jmap(s).contains_key(a),
        jmap(s).contains_key(b),
        is_descendant(jmap(s), b, a, s.len() as nat),
    ensures
        reparent_spec(s, a, b) == Result::<Seq<JointView>, ReparentError>::Err(
            ReparentError::CycleDetected,
        ),
{
}

/// Dragging a joint onto itself is rejected; `reparent`'s contract then
/// leaves the collection unchanged.
pub proof fn lemma_reparent_self_rejected(s: Seq<JointView>, a: Seq<char>)
    requires
        jmap(s).contains_key(a),
    ensures
        reparent_spec(s, a, a) == Result::<Seq<JointView>, ReparentError>::Err(
            ReparentError::CycleDetected,
        ),
{
}

/// After a successful reparent the dragged joint sits exactly one level
/// below its new parent, whose own depth the transaction did not change.
pub proof fn lemma_reparent_depth(s: Seq<JointView>, a: Seq<char>, b: Seq<char>)
    requires
        wf_seq(s),
        reparent_spec(s, a, b) is Ok,
    ensures
        ({
            let s1 = reparent_spec(s, a, b)->Ok_0;
            let m1 = jmap(s1);
            let n = s.len() as nat;
            &&& depth_via(m1, a, n) is Some
            &&& depth_via(m1, b, n) is Some
            &&& depth_via(m1, a, n)->Some_0 == depth_via(m1, b, n)->Some_0 + 1
            &&& depth_via(m1, b, n) == depth_via(jmap(s), b, n)
        }),
{
    let m0 = jmap(s);
    let n = s.len() as nat;
    let uv = reparented_joint(s, a, b);
    lemma_reparented_wf(s, a, b);
    let s1 = reparent_spec(s, a, b)->Ok_0;
    let m1 = jmap(s1);
    assert(m1 == m0.insert(a, uv));
    lemma_chain_preserved(m0, a, uv, a, b, n);
    assert(depth_via(m1, b, n) == depth_via(m0, b, n));
    assert(m1.contains_key(a));
    assert(depth_via(m1, a, n) is Some);
    assert(m1[a].parent_id == Option::Some(b));
    assert(depth_via(m1, b, (n - 1) as nat) is Some);
    lemma_fuel_agree(m1, b, (n - 1) as nat, n);
}

/// A successful reparent moves nothing: every joint's world position is the
/// same before and after the transaction.
pub proof fn lemma_reparent_world_unchanged(s: Seq<JointView>, a: Seq<char>, b: Seq<char>)
    requires
        wf_seq(s),
        reparent_spec(s, a, b) is Ok,
    ensures
        forall|id: Seq<char>| #[trigger]
            jmap(s).contains_key(id) ==> world_via(
                jmap(reparent_spec(s, a, b)->Ok_0),
                id,
                s.len() as nat,
            ) == world_via(jmap(s), id, s.len() as nat),
{
    lemma_reparented_wf(s, a, b);
}

/// Round trip: reparenting a joint under a new parent and then immediately
/// back under its original parent restores the original parent link (the
/// local position is governed by the world-difference rule both times).
pub proof fn lemma_reparent_round_trip(s: Seq<JointView>, a: Seq<char>, b: Seq<char>)
    requires
        wf_seq(s),
        jmap(s).contains_key(a),
        jmap(s).contains_key(b),
        !chain_reaches(jmap(s), a, b, s.len() as nat),
        jmap(s)[a].parent_id is Some,
    ensures
        ({
            let p0 = jmap(s)[a].parent_id->Some_0;
            let s1 = reparent_spec(s, a, b)->Ok_0;
            &&& reparent_spec(s, a, b) is Ok
            &&& reparent_spec(s1, a, p0) is Ok
            &&& jmap(reparent_spec(s1, a, p0)->Ok_0).contains_key(a)
            &&& jmap(reparent_spec(s1, a, p0)->Ok_0)[a].parent_id == Option::Some(p0)
        }),
{
    let m0 = jmap(s);
    let n = s.len() as nat;
    let p0 = m0[a].parent_id->Some_0;
    let uv = reparented_joint(s, a, b);
    lemma_reparented_wf(s, a, b);
    let s1 = reparent_spec(s, a, b)->Ok_0;
    let m1 = jmap(s1);
    assert(m1 == m0.insert(a, uv));
    assert(m0.contains_key(p0));
    assert(m1.contains_key(p0));
    // The old parent's chain cannot pass through the dragged joint: the
    // dragged joint hangs one level below it, and depth never climbs along
    // a chain.
    assert(!chain_reaches(m0, a, p0, n)) by {
        if chain_reaches(m0, a, p0, n) {
            assert(depth_via(m0, a, n) is Some);
            assert(depth_via(m0, p0, (n - 1) as nat) is Some);
            lemma_depth_le_fuel(m0, p0, (n - 1) as nat);
            lemma_depth_fuel(m0, p0, (n - 1) as nat, n);
            lemma_chain_depth_le(m0, a, p0, n);
        }
    }
    lemma_chain_preserved(m0, a, uv, a, p0, n);
    assert(!chain_reaches(m1, a, p0, n));
    lemma_reparent_unrelated_succeeds(s1, a, p0);
}

} // verus!
