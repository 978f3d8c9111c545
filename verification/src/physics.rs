//! The bookkeeping of a physics world: which bodies it holds, under which ids.
//!
//! Bodies are kept in a list of slots. Adding a body puts it in a new slot
//! at the end, and its id is the slot's position; removing a body leaves an
//! empty slot behind, so the ids of the other bodies stay valid and no id
//! is ever handed out twice.
use vstd::prelude::*;
use vstd::pervasive::VecAdditionalExecFns;

verus! {

/// Identifies one body in a world. You get one from [`BodyStore::add`] and
/// use it to look the body up later.
///
/// It's a *newtype*: a `usize` wrapped in its own type, so it can't be mixed
/// up with any other number.
#[derive(Debug, Clone, Copy, PartialEq, Eq, Hash, PartialOrd, Ord, Structural)]
pub struct BodyId(usize);

impl BodyId {
    /// The position of the body's slot.
    pub closed spec fn slot(self) -> int {
        self.0 as int
    }
}

/// The id of slot `i`.
pub closed spec fn id_of(i: int) -> BodyId {
    BodyId(i as usize)
}

/// The slot of the id of slot `i` is `i`, for every slot a list can have.
pub proof fn lemma_id_of_slot(i: int)
    requires
        0 <= i <= usize::MAX,
    ensures
        id_of(i).slot() == i,
{
}

/// How many slots of `slots` hold a body.
pub open spec fn count_bodies<B>(slots: Seq<Option<B>>) -> nat
    decreases slots.len(),
{
    if slots.len() == 0 {
        0
    } else {
        count_bodies(slots.drop_last()) + if slots.last() is Some { 1nat } else { 0nat }
    }
}

/// The bodies of a world, each in the slot its id names.
#[derive(Debug)]
pub struct BodyStore<B> {
    slots: Vec<Option<B>>,
}

impl<B> View for BodyStore<B> {
    type V = Seq<Option<B>>;

    closed spec fn view(&self) -> Seq<Option<B>> {
        self.slots@
    }
}

/// The body in slot `id` of `slots`, if there is one.
pub open spec fn body_at<B>(slots: Seq<Option<B>>, id: BodyId) -> Option<B> {
    if 0 <= id.slot() < slots.len() {
        slots[id.slot()]
    } else {
        None
    }
}

impl<B> BodyStore<B> {
    /// An empty world.
    pub fn new() -> (store: Self)
        ensures
            store@ == Seq::<Option<B>>::empty(),
    {
        BodyStore { slots: Vec::new() }
    }

    /// Adds a body and returns its id: the next slot at the end.
    pub fn add(&mut self, body: B) -> (id: BodyId)
        ensures
            final(self)@ == old(self)@.push(Some(body)),
            id.slot() == old(self)@.len(),
    {
        self.slots.push(Some(body));
        BodyId(self.slots.len() - 1)
    }

    /// Removes a body, handing it back. Returns `None` if it was already gone.
    pub fn remove(&mut self, id: BodyId) -> (body: Option<B>)
        ensures
            body == body_at(old(self)@, id),
            final(self)@ == if 0 <= id.slot() < old(self)@.len() {
                old(self)@.update(id.slot(), None)
            } else {
                old(self)@
            },
    {
        if id.0 < self.slots.len() {
            let mut taken: Option<B> = None;
            self.slots.set_and_swap(id.0, &mut taken);
            taken
        } else {
            None
        }
    }

    /// Looks up a body to read it.
    pub fn get(&self, id: BodyId) -> (body: Option<&B>)
        ensures
            match body_at(self@, id) {
                Some(b) => body == Some(&b),
                None => body is None,
            },
    {
        if id.0 < self.slots.len() {
            self.slots[id.0].as_ref()
        } else {
            None
        }
    }

    /// Looks up a body to change it.
    pub fn get_mut(&mut self, id: BodyId) -> (body: Option<&mut B>)
        ensures
            match body_at(old(self)@, id) {
                Some(b) => body is Some && *body.unwrap() == b
                    && final(self)@ == old(self)@.update(id.slot(), Some(*final(body.unwrap()))),
                None => body is None && final(self)@ == old(self)@,
            },
    {
        if id.0 < self.slots.len() {
            self.slots[id.0].as_mut()
        } else {
            None
        }
    }

    /// Removes every body for which `keep` returns `false`.
    pub fn retain<F: Fn(BodyId, &B) -> bool>(&mut self, keep: F)
        requires
            forall|id: BodyId, b: &B| call_requires(keep, (id, b)),
        ensures
            final(self)@.len() == old(self)@.len(),
            forall|i: int| 0 <= i < old(self)@.len() ==> match #[trigger] old(self)@[i] {
                None => final(self)@[i] is None,
                Some(b) => (final(self)@[i] == Some(b) && call_ensures(keep, (id_of(i), &b), true))
                    || (final(self)@[i] is None && call_ensures(keep, (id_of(i), &b), false)),
            },
    {
        let n = self.slots.len();
        let mut i: usize = 0;
        while i < n
            invariant
                n == self.slots@.len(),
                n == old(self)@.len(),
                i <= n,
                forall|id: BodyId, b: &B| call_requires(keep, (id, b)),
                forall|j: int| i <= j < n ==> self.slots@[j] == old(self)@[j],
                forall|j: int| 0 <= j < i ==> match #[trigger] old(self)@[j] {
                    None => self.slots@[j] is None,
                    Some(b) => (self.slots@[j] == Some(b) && call_ensures(keep, (id_of(j), &b), true))
                        || (self.slots@[j] is None && call_ensures(keep, (id_of(j), &b), false)),
                },
            decreases n - i,
        {
            let remove = match &self.slots[i] {
                Some(body) => !keep(BodyId(i), body),
                None => false,
            };
            if remove {
                self.slots.set(i, None);
            }
            i += 1;
        }
    }

    /// The ids of every body in the world, in the order they were added.
    pub fn ids(&self) -> (ids: Vec<BodyId>)
        ensures
            forall|k: int| 0 <= k < ids@.len() ==> #[trigger] body_at(self@, ids@[k]) is Some,
            forall|k: int, l: int| 0 <= k < l < ids@.len() ==> ids@[k].slot() < ids@[l].slot(),
            forall|i: int| 0 <= i < self@.len() && self@[i] is Some ==> ids@.contains(#[trigger] id_of(i)),
    {
        let mut ids: Vec<BodyId> = Vec::new();
        let mut i: usize = 0;
        while i < self.slots.len()
            invariant
                i <= self.slots@.len(),
                forall|k: int| 0 <= k < ids@.len() ==> #[trigger] body_at(self@, ids@[k]) is Some,
                forall|k: int| 0 <= k < ids@.len() ==> #[trigger] ids@[k].slot() < i,
                forall|k: int, l: int| 0 <= k < l < ids@.len() ==> ids@[k].slot() < ids@[l].slot(),
                forall|j: int| 0 <= j < i && self@[j] is Some ==> ids@.contains(#[trigger] id_of(j)),
            decreases self.slots@.len() - i,
        {
            proof {
                broadcast use vstd::seq_lib::lemma_seq_contains_after_push;
            }
            if self.slots[i].is_some() {
                let id = BodyId(i);
                assert(id == id_of(i as int));
                ids.push(id);
                assert(ids@[ids@.len() - 1] == id);
            }
            i += 1;
        }
        ids
    }

    /// How many bodies are in the world.
    pub fn len(&self) -> (n: usize)
        ensures
            n == count_bodies(self@),
    {
        let mut n: usize = 0;
        let mut i: usize = 0;
        while i < self.slots.len()
            invariant
                i <= self.slots@.len(),
                n == count_bodies(self@.subrange(0, i as int)),
                n <= i,
            decreases self.slots@.len() - i,
        {
            proof {
                assert(self@.subrange(0, i + 1).drop_last() =~= self@.subrange(0, i as int));
            }
            if self.slots[i].is_some() {
                n += 1;
            }
            i += 1;
        }
        assert(self@.subrange(0, i as int) =~= self@);
        n
    }

    pub fn is_empty(&self) -> (empty: bool)
        ensures
            empty == (count_bodies(self@) == 0),
    {
        self.len() == 0
    }
}

/// A body just added is found under the id `add` returned, the world holds
/// one more body, and every other id finds what it found before.
pub proof fn law_add_then_get<B>(slots: Seq<Option<B>>, body: B, other: BodyId)
    requires
        slots.len() <= usize::MAX,
    ensures
        body_at(slots.push(Some(body)), id_of(slots.len() as int)) == Some(body),
        count_bodies(slots.push(Some(body))) == count_bodies(slots) + 1,
        other.slot() != slots.len() ==> body_at(slots.push(Some(body)), other) == body_at(slots, other),
{
    lemma_id_of_slot(slots.len() as int);
    assert(slots.push(Some(body)).drop_last() =~= slots);
}

/// After a body is removed its id finds nothing, the world holds one body
/// fewer, and every other id finds what it found before.
pub proof fn law_remove_then_get<B>(slots: Seq<Option<B>>, id: BodyId, other: BodyId)
    requires
        body_at(slots, id) is Some,
    ensures
        body_at(slots.update(id.slot(), None), id) is None,
        count_bodies(slots.update(id.slot(), None)) + 1 == count_bodies(slots),
        other != id ==> body_at(slots.update(id.slot(), None), other) == body_at(slots, other),
{
    lemma_count_after_update(slots, id.slot());
    if other != id {
        lemma_slot_identifies(id, other);
    }
}

/// Two ids with the same slot are the same id.
proof fn lemma_slot_identifies(a: BodyId, b: BodyId)
    ensures
        a.slot() == b.slot() ==> a == b,
{
}

/// Emptying a full slot removes exactly one body from the count.
proof fn lemma_count_after_update<B>(slots: Seq<Option<B>>, i: int)
    requires
        0 <= i < slots.len(),
        slots[i] is Some,
    ensures
        count_bodies(slots.update(i, None)) + 1 == count_bodies(slots),
    decreases slots.len(),
{
    let after = slots.update(i, None);
    if i == slots.len() - 1 {
        assert(after.drop_last() =~= slots.drop_last());
    } else {
        lemma_count_after_update(slots.drop_last(), i);
        assert(after.drop_last() =~= slots.drop_last().update(i, None));
    }
}

/// An id is never handed out twice: removing a body keeps the list of
/// slots as long as it was, and `add` only hands out ids at or past the end
/// of the list, so no body added later gets the removed body's id.
pub proof fn law_ids_are_not_reused<B>(slots: Seq<Option<B>>, id: BodyId, later: BodyId)
    requires
        body_at(slots, id) is Some,
        later.slot() >= slots.update(id.slot(), None).len(),
    ensures
        slots.update(id.slot(), None).len() == slots.len(),
        later != id,
{
}

/// Is the pair `(a, b)`, in either order, among `pairs`?
pub open spec fn pair_listed(pairs: Seq<(BodyId, BodyId)>, a: BodyId, b: BodyId) -> bool {
    exists|i: int| 0 <= i < pairs.len() && (#[trigger] pairs[i] == (a, b) || pairs[i] == (b, a))
}

/// Is entry `i` of `pairs` the first time that pair (in that order) appears?
pub open spec fn first_time(pairs: Seq<(BodyId, BodyId)>, i: int) -> bool {
    forall|j: int| 0 <= j < i ==> #[trigger] pairs[j] != pairs[i]
}

/// Did bodies `a` and `b` touch, according to a list of the pairs of bodies
/// that touched? Either order counts.
pub fn touching(pairs: &[(BodyId, BodyId)], a: BodyId, b: BodyId) -> (touched: bool)
    ensures
        touched == pair_listed(pairs@, a, b),
{
    let mut i: usize = 0;
    while i < pairs.len()
        invariant
            i <= pairs@.len(),
            forall|j: int| 0 <= j < i ==> !(#[trigger] pairs@[j] == (a, b) || pairs@[j] == (b, a)),
        decreases pairs@.len() - i,
    {
        let (p, q) = pairs[i];
        if (p == a && q == b) || (p == b && q == a) {
            assert(pairs@[i as int] == (a, b) || pairs@[i as int] == (b, a));
            return true;
        }
        i += 1;
    }
    false
}

/// Whether two bodies touched does not depend on which one is asked about first.
pub proof fn law_touching_is_symmetric(pairs: Seq<(BodyId, BodyId)>, a: BodyId, b: BodyId)
    ensures
        pair_listed(pairs, a, b) == pair_listed(pairs, b, a),
{
}

/// The positions in `pairs` where each pair of bodies (in that order)
/// appears for the first time, in increasing order: a pair that touched in
/// several substeps is reported once.
pub fn first_of_each_pair(pairs: &[(BodyId, BodyId)]) -> (firsts: Vec<usize>)
    ensures
        forall|k: int| 0 <= k < firsts@.len() ==> #[trigger] firsts@[k] < pairs@.len() && first_time(pairs@, firsts@[k] as int),
        forall|k: int, l: int| 0 <= k < l < firsts@.len() ==> firsts@[k] < firsts@[l],
        forall|i: int| 0 <= i < pairs@.len() && first_time(pairs@, i) ==> firsts@.contains(#[trigger] (i as usize)),
{
    let mut firsts: Vec<usize> = Vec::new();
    let mut i: usize = 0;
    while i < pairs.len()
        invariant
            i <= pairs@.len(),
            forall|k: int| 0 <= k < firsts@.len() ==> #[trigger] firsts@[k] < i && first_time(pairs@, firsts@[k] as int),
            forall|k: int, l: int| 0 <= k < l < firsts@.len() ==> firsts@[k] < firsts@[l],
            forall|j: int| 0 <= j < i && first_time(pairs@, j) ==> firsts@.contains(#[trigger] (j as usize)),
        decreases pairs@.len() - i,
    {
        let (p, q) = pairs[i];
        let mut seen = false;
        let mut j: usize = 0;
        while j < i
            invariant
                i < pairs@.len(),
                j <= i,
                (p, q) == pairs@[i as int],
                seen == exists|m: int| 0 <= m < j && #[trigger] pairs@[m] == pairs@[i as int],
            decreases i - j,
        {
            let (p2, q2) = pairs[j];
            if p2 == p && q2 == q {
                seen = true;
            }
            j += 1;
        }
        proof {
            broadcast use vstd::seq_lib::lemma_seq_contains_after_push;
        }
        if !seen {
            firsts.push(i);
        }
        i += 1;
    }
    firsts
}

} // verus!
