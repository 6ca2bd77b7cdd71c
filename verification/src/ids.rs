//! Object ids on the client's side of the connection.
use vstd::prelude::*;

use crate::platform::arena::ArrayVec;

verus! {

/// Most recycled ids held at once.
pub const MAX_IDS: usize = 256;

/// Object ID allocator - starts at 2 since 1 is wl_display.
pub struct IdAllocator {
    next_id: u32,
    /// Ids the compositor has reported as deleted via wl_display.delete_id,
    /// handed back out before bumping next_id so a long session that creates
    /// and destroys many objects does not run the id space up.
    free: ArrayVec<u32, MAX_IDS>,
}

/// What an allocator holds: the next fresh id, and the ids to hand out again,
/// the last of them first.
#[verifier::ext_equal]
pub struct IdsView {
    pub next: int,
    pub free: Seq<u32>,
}

impl View for IdAllocator {
    type V = IdsView;

    closed spec fn view(&self) -> IdsView {
        IdsView { next: self.next_id as int, free: self.free@ }
    }
}

impl IdsView {
    /// The id handed out next.
    pub open spec fn id(self) -> u32 {
        if self.free.len() > 0 {
            self.free.last()
        } else {
            self.next as u32
        }
    }

    /// With the next id handed out.
    pub open spec fn taken(self) -> IdsView {
        if self.free.len() > 0 {
            IdsView { free: self.free.drop_last(), ..self }
        } else {
            IdsView { next: self.next + 1, ..self }
        }
    }

    /// With an id given back. A full pool forgets it.
    pub open spec fn recycled(self, id: u32) -> IdsView {
        if self.free.len() < MAX_IDS {
            IdsView { free: self.free.push(id), ..self }
        } else {
            self
        }
    }

    /// Whether there are fresh ids for this many allocations.
    pub open spec fn room(self, n: int) -> bool {
        0 <= self.next && self.next + n <= u32::MAX
    }
}

impl IdAllocator {
    pub closed spec fn wf(&self) -> bool {
        self.free.wf()
    }

    pub fn new() -> (r: Self)
        ensures
            r.wf(),
            r@ == (IdsView { next: 2, free: Seq::empty() }),
    {
        Self { next_id: 2, free: ArrayVec::new() }
    }

    pub fn allocate(&mut self) -> (r: u32)
        requires
            old(self).wf(),
            old(self)@.free.len() > 0 || old(self)@.room(1),
        ensures
            final(self).wf(),
            r == old(self)@.id(),
            final(self)@ == old(self)@.taken(),
    {
        if let Some(id) = self.free.pop() {
            return id;
        }
        let id: u32 = self.next_id;
        self.next_id += 1;
        id
    }

    /// Whether there are fresh ids for this many allocations.
    pub fn has_room(&self, n: u32) -> (r: bool)
        ensures
            r == self@.room(n as int),
    {
        self.next_id <= u32::MAX - n
    }

    /// Return an id the compositor reported as deleted to the free pool.
    pub fn recycle(&mut self, id: u32)
        requires
            old(self).wf(),
        ensures
            final(self).wf(),
            final(self)@ == old(self)@.recycled(id),
    {
        let _ = self.free.push(id);
    }
}

/// A recycled id is handed out again before a fresh one, and the pool is as it
/// was.
pub proof fn law_a_recycled_id_is_reused(ids: IdsView, id: u32)
    requires
        ids.free.len() < MAX_IDS,
    ensures
        ids.recycled(id).id() == id,
        ids.recycled(id).taken() == ids,
{
    assert(ids.recycled(id).taken().free =~= ids.free);
}

/// Ids in use: every one below the next fresh id that is not in the pool.
pub open spec fn in_use(ids: IdsView, id: u32) -> bool {
    2 <= id < ids.next && !ids.free.contains(id)
}

/// Whether the pool is sound: it holds ids handed out before, none twice.
pub open spec fn sound(ids: IdsView) -> bool {
    &&& 2 <= ids.next <= u32::MAX
    &&& ids.free.no_duplicates()
    &&& forall|i: int| 0 <= i < ids.free.len() ==> 2 <= #[trigger] ids.free[i] < ids.next
}

/// An id handed out is in use by nobody else, and the ids in use stay so.
pub proof fn law_ids_are_never_shared(ids: IdsView)
    requires
        sound(ids),
        ids.room(1),
    ensures
        !in_use(ids, ids.id()),
        in_use(ids.taken(), ids.id()),
        forall|other: u32| in_use(ids, other) ==> #[trigger] in_use(ids.taken(), other),
        sound(ids.taken()),
{
    let after = ids.taken();
    if ids.free.len() > 0 {
        let n = ids.free.len() - 1;
        assert(ids.free[n] == ids.id());
        assert(ids.free.contains(ids.free[n]));
        assert forall|i: int| 0 <= i < after.free.len() implies #[trigger] after.free[i]
            != ids.id() && after.free[i] == ids.free[i] by {}
        assert forall|other: u32| in_use(ids, other) implies #[trigger] in_use(after, other) by {
            if after.free.contains(other) {
                let i = choose|i: int| 0 <= i < after.free.len() && after.free[i] == other;
                assert(ids.free[i] == other);
            }
        }
    } else {
        assert(after.free =~= Seq::<u32>::empty());
    }
}

/// Giving back an id in use keeps the pool sound, and takes the id and no other
/// out of use as long as the pool has a place for it.
pub proof fn law_a_deleted_id_goes_out_of_use(ids: IdsView, id: u32)
    requires
        sound(ids),
        in_use(ids, id),
    ensures
        sound(ids.recycled(id)),
        ids.free.len() < MAX_IDS ==> !in_use(ids.recycled(id), id),
        forall|other: u32|
            other != id ==> #[trigger] in_use(ids.recycled(id), other) == in_use(ids, other),
{
    let after = ids.recycled(id);
    if ids.free.len() < MAX_IDS {
        let n = ids.free.len() as int;
        assert(after.free[n] == id);
        assert(after.free.contains(id));
        assert forall|other: u32| other != id implies #[trigger] in_use(after, other) == in_use(
            ids,
            other,
        ) by {
            if ids.free.contains(other) {
                let i = choose|i: int| 0 <= i < n && ids.free[i] == other;
                assert(after.free[i] == other);
            }
            if after.free.contains(other) {
                let i = choose|i: int| 0 <= i < after.free.len() && after.free[i] == other;
                assert(ids.free[i] == other);
            }
        }
        assert forall|i: int| 0 <= i < after.free.len() implies 2 <= #[trigger] after.free[i]
            < after.next by {
            if i < n {
                assert(after.free[i] == ids.free[i]);
            }
        }
        assert forall|i: int, j: int|
            0 <= i < after.free.len() && 0 <= j < after.free.len() && i != j implies after.free[i]
            != after.free[j] by {
            if i < n && j < n {
                assert(ids.free[i] != ids.free[j]);
            } else if i < n {
                assert(ids.free.contains(ids.free[i]));
            } else {
                assert(ids.free.contains(ids.free[j]));
            }
        }
    }
}

} // verus!
