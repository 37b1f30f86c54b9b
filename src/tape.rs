use vstd::prelude::*;

verus! {

/// The abstract contents of a tape: the cursor's logical address and the
/// byte held at every logical address (zero wherever nothing was written).
#[verifier::ext_equal]
pub struct TapeModel {
    pub cursor: int,
    pub cells: spec_fn(int) -> u8,
}

impl TapeModel {
    /// A fresh tape: cursor at the origin, every cell zero.
    pub open spec fn empty() -> TapeModel {
        TapeModel { cursor: 0, cells: |a: int| 0u8 }
    }

    pub open spec fn current(self) -> u8 {
        (self.cells)(self.cursor)
    }

    pub open spec fn moved_by(self, delta: int) -> TapeModel {
        TapeModel { cursor: self.cursor + delta, cells: self.cells }
    }

    pub open spec fn moved_to(self, address: int) -> TapeModel {
        TapeModel { cursor: address, cells: self.cells }
    }

    pub open spec fn written(self, value: u8) -> TapeModel {
        TapeModel {
            cursor: self.cursor,
            cells: |a: int|
                if a == self.cursor {
                    value
                } else {
                    (self.cells)(a)
                },
        }
    }

    pub open spec fn incremented(self) -> TapeModel {
        self.written(((self.current() as int + 1) % 256) as u8)
    }

    pub open spec fn decremented(self) -> TapeModel {
        self.written(((self.current() as int + 255) % 256) as u8)
    }
}

/// The largest distance from the origin that the cursor's cell may have
/// when it is read or written: a buffer spanning twice that many cells
/// still fits in a `Vec<u8>`.
pub open spec fn address_limit() -> int {
    isize::MAX as int / 4
}

pub open spec fn in_reach(address: int) -> bool {
    -address_limit() <= address <= address_limit()
}

/// A byte tape over the whole integer line, backed by a buffer that grows on
/// demand in either direction.
pub struct Tape {
    storage: Vec<u8>,
    origin_offset: usize,
    cursor: i64,
}

impl View for Tape {
    type V = TapeModel;

    closed spec fn view(&self) -> TapeModel {
        TapeModel { cursor: self.cursor as int, cells: |a: int| self.cell_at(a) }
    }
}

impl Tape {
    /// The byte that address `a` holds: its slot of the buffer when it has
    /// one, else zero.
    pub open spec fn cell_at(&self, a: int) -> u8 {
        let i = a + self.spec_origin_offset();
        if 0 <= i < self.spec_storage_len() {
            self.spec_storage()[i]
        } else {
            0u8
        }
    }

    /// The backing buffer.
    pub closed spec fn spec_storage(&self) -> Seq<u8> {
        self.storage@
    }

    /// The buffer index of the cursor's cell.
    pub open spec fn index(&self) -> int {
        self@.cursor + self.spec_origin_offset()
    }

    /// The buffer holds the cells of the addresses from `-origin_offset`
    /// up to `len - origin_offset - 1`, all of them within reach.
    pub open spec fn wf(&self) -> bool {
        &&& self.spec_origin_offset() <= address_limit()
        &&& self.spec_storage_len() - self.spec_origin_offset() <= address_limit() + 1
    }

    pub open spec fn spec_storage_len(&self) -> int {
        self.spec_storage().len() as int
    }

    pub closed spec fn spec_origin_offset(&self) -> int {
        self.origin_offset as int
    }

    /// The buffer length once the cursor's cell has been made addressable.
    pub open spec fn grown_len(&self) -> int {
        let i = self.index();
        if i < 0 {
            self.spec_storage_len() - i
        } else if i >= self.spec_storage_len() {
            i + 1
        } else {
            self.spec_storage_len()
        }
    }

    /// The origin offset once the cursor's cell has been made addressable.
    pub open spec fn grown_origin(&self) -> int {
        let i = self.index();
        if i < 0 {
            self.spec_origin_offset() - i
        } else {
            self.spec_origin_offset()
        }
    }

    /// Whether the cursor's cell can be made addressable: the cursor lies
    /// within the addresses that a tape can reach.
    pub open spec fn accessible(&self) -> bool {
        in_reach(self@.cursor)
    }

    /// After an access, the buffer length and the offset are what
    /// `grown_len` and `grown_origin` said before it, and the cursor's cell
    /// lies inside the buffer.
    pub open spec fn accessed(&self, before: &Tape) -> bool {
        &&& self.wf()
        &&& self.spec_storage_len() == before.grown_len()
        &&& self.spec_origin_offset() == before.grown_origin()
        &&& 0 <= self.index() < self.spec_storage_len()
    }

    /// The cells of the view are those that the buffer holds: every
    /// address without a slot reads zero.
    pub proof fn lemma_cells_from_buffer(t: Tape)
        ensures
            forall|a: int| #[trigger] (t@.cells)(a) == t.cell_at(a),
            t.spec_origin_offset() >= 0,
    {
    }

    pub fn new() -> (r: Tape)
        ensures
            r.wf(),
            r@ == TapeModel::empty(),
            r.spec_storage_len() == 0,
            r.spec_origin_offset() == 0,
    {
        let r = Tape { storage: Vec::new(), origin_offset: 0, cursor: 0 };
        assert(r@ =~= TapeModel::empty());
        r
    }

    pub fn cursor(&self) -> (r: i64)
        ensures
            r as int == self@.cursor,
    {
        self.cursor
    }

    pub fn storage_len(&self) -> (r: usize)
        ensures
            r as int == self.spec_storage_len(),
    {
        self.storage.len()
    }

    pub fn origin_offset(&self) -> (r: usize)
        ensures
            r as int == self.spec_origin_offset(),
    {
        self.origin_offset
    }

    /// Whether `read`, `write` and the cell updates may be called now.
    pub fn is_accessible(&self) -> (r: bool)
        ensures
            r == self.accessible(),
    {
        let limit = (isize::MAX / 4) as i64;
        -limit <= self.cursor && self.cursor <= limit
    }

    pub fn advance(&mut self)
        requires
            old(self).wf(),
            old(self)@.cursor < i64::MAX,
        ensures
            final(self).wf(),
            final(self)@ == old(self)@.moved_by(1),
            final(self).spec_storage_len() == old(self).spec_storage_len(),
            final(self).spec_origin_offset() == old(self).spec_origin_offset(),
    {
        self.cursor = self.cursor + 1;
        assert(self@ =~= old(self)@.moved_by(1));
    }

    pub fn retreat(&mut self)
        requires
            old(self).wf(),
            old(self)@.cursor > i64::MIN,
        ensures
            final(self).wf(),
            final(self)@ == old(self)@.moved_by(-1),
            final(self).spec_storage_len() == old(self).spec_storage_len(),
            final(self).spec_origin_offset() == old(self).spec_origin_offset(),
    {
        self.cursor = self.cursor - 1;
        assert(self@ =~= old(self)@.moved_by(-1));
    }

    fn current_address_to_index(&self) -> (r: i128)
        requires
            self.wf(),
        ensures
            r as int == self.index(),
    {
        self.cursor as i128 + self.origin_offset as i128
    }

    /// Appends zeros to the buffer until it holds `new_len` bytes.
    fn grow_to(&mut self, new_len: usize)
        requires
            old(self).storage@.len() <= new_len,
        ensures
            final(self).storage@.len() == new_len,
            final(self).origin_offset == old(self).origin_offset,
            final(self).cursor == old(self).cursor,
            forall|j: int| 0 <= j < old(self).storage@.len() ==> final(self).storage@[j] == old(self).storage@[j],
            forall|j: int| old(self).storage@.len() <= j < new_len ==> final(self).storage@[j] == 0u8,
    {
        while self.storage.len() < new_len
            invariant
                old(self).storage@.len() <= self.storage@.len() <= new_len,
                self.origin_offset == old(self).origin_offset,
                self.cursor == old(self).cursor,
                forall|j: int| 0 <= j < old(self).storage@.len() ==> self.storage@[j] == old(self).storage@[j],
                forall|j: int| old(self).storage@.len() <= j < self.storage@.len() ==> self.storage@[j] == 0u8,
            decreases new_len - self.storage@.len(),
        {
            self.storage.push(0u8);
        }
    }

    /// Grows the buffer so that the cursor's cell has a slot: leftwards by
    /// shifting every byte right and zero-filling the new front, rightwards
    /// by appending zeros.
    pub fn ensure_capacity_for(&mut self)
        requires
            old(self).wf(),
            old(self).accessible(),
        ensures
            final(self).accessed(old(self)),
            final(self)@ == old(self)@,
            forall|k: int|
                0 <= k < final(self).spec_storage_len() ==> #[trigger] final(self).spec_storage()[k] == old(
                    self,
                ).cell_at(k - final(self).spec_origin_offset()),
    {
        let target_index = self.current_address_to_index();
        let old_len = self.storage.len();
        if target_index < 0 {
            let difference = (-target_index) as usize;
            let new_len = old_len + difference;
            self.origin_offset = self.origin_offset + difference;
            self.grow_to(new_len);
            let mut i: usize = new_len;
            while i > difference
                invariant
                    difference <= i <= new_len,
                    new_len == old_len + difference,
                    difference as int == -old(self).index(),
                    self.origin_offset == old(self).origin_offset + difference,
                    self.cursor == old(self).cursor,
                    self.storage@.len() == new_len,
                    old(self).storage@.len() == old_len,
                    forall|j: int| i <= j < new_len ==> self.storage@[j] == old(self).storage@[j - difference],
                    forall|j: int| 0 <= j < i && j < old_len ==> self.storage@[j] == old(self).storage@[j],
                decreases i,
            {
                i = i - 1;
                let moved = self.storage[i - difference];
                self.storage.set(i, moved);
            }
            let mut k: usize = 0;
            while k < difference
                invariant
                    k <= difference,
                    new_len == old_len + difference,
                    difference as int == -old(self).index(),
                    self.origin_offset == old(self).origin_offset + difference,
                    self.cursor == old(self).cursor,
                    self.storage@.len() == new_len,
                    old(self).storage@.len() == old_len,
                    forall|j: int| difference <= j < new_len ==> self.storage@[j] == old(self).storage@[j - difference],
                    forall|j: int| 0 <= j < k ==> self.storage@[j] == 0u8,
                decreases difference - k,
            {
                self.storage.set(k, 0u8);
                k = k + 1;
            }
        } else if target_index >= old_len as i128 {
            let new_len = target_index as usize + 1;
            self.grow_to(new_len);
        }
        assert forall|a: int| self.cell_at(a) == old(self).cell_at(a) by {}
        assert(self@ =~= old(self)@);
    }

    /// Makes the cursor's cell addressable and returns its buffer index.
    fn checked_index(&mut self) -> (r: usize)
        requires
            old(self).wf(),
            old(self).accessible(),
        ensures
            final(self).accessed(old(self)),
            final(self)@ == old(self)@,
            r as int == final(self).index(),
    {
        self.ensure_capacity_for();
        self.current_address_to_index() as usize
    }

    pub fn read(&mut self) -> (r: u8)
        requires
            old(self).wf(),
            old(self).accessible(),
        ensures
            final(self).accessed(old(self)),
            final(self)@ == old(self)@,
            r == old(self)@.current(),
    {
        let index = self.checked_index();
        self.storage[index]
    }

    pub fn write(&mut self, value: u8)
        requires
            old(self).wf(),
            old(self).accessible(),
        ensures
            final(self).accessed(old(self)),
            final(self)@ == old(self)@.written(value),
    {
        let index = self.checked_index();
        self.storage.set(index, value);
        assert(self@ =~= old(self)@.written(value));
    }

    pub fn increment_cell(&mut self)
        requires
            old(self).wf(),
            old(self).accessible(),
        ensures
            final(self).accessed(old(self)),
            final(self)@ == old(self)@.incremented(),
    {
        let value = self.read();
        self.write(value.wrapping_add(1));
    }

    pub fn decrement_cell(&mut self)
        requires
            old(self).wf(),
            old(self).accessible(),
        ensures
            final(self).accessed(old(self)),
            final(self)@ == old(self)@.decremented(),
    {
        let value = self.read();
        self.write(value.wrapping_sub(1));
    }
}

/// The value of the last write to `address` among `writes`, each an
/// address and a value, if there is one.
pub open spec fn last_write(writes: Seq<(int, u8)>, address: int) -> Option<u8>
    decreases writes.len(),
{
    if writes.len() == 0 {
        None
    } else if writes.last().0 == address {
        Some(writes.last().1)
    } else {
        last_write(writes.drop_last(), address)
    }
}

/// The tape once the cursor has been moved to each address of `writes` in
/// turn and its value written there.
pub open spec fn after_writes(t: TapeModel, writes: Seq<(int, u8)>) -> TapeModel
    decreases writes.len(),
{
    if writes.len() == 0 {
        t
    } else {
        after_writes(t, writes.drop_last()).moved_to(writes.last().0).written(writes.last().1)
    }
}

/// Writes are kept at their addresses: after any sequence of writes, at any
/// addresses and in any order, an address holds the last value written to
/// it, and an address never written keeps its value.
pub proof fn law_reads_see_last_write(t: TapeModel, writes: Seq<(int, u8)>, address: int)
    ensures
        (after_writes(t, writes).cells)(address) == match last_write(writes, address) {
            Some(v) => v,
            None => (t.cells)(address),
        },
    decreases writes.len(),
{
    if writes.len() > 0 {
        law_reads_see_last_write(t, writes.drop_last(), address);
    }
}

/// On a fresh tape, an address that no write reached reads zero.
pub proof fn law_unwritten_reads_zero(writes: Seq<(int, u8)>, address: int)
    requires
        last_write(writes, address) is None,
    ensures
        (after_writes(TapeModel::empty(), writes).cells)(address) == 0,
{
    law_reads_see_last_write(TapeModel::empty(), writes, address);
}

/// Cells wrap around: incrementing 255 gives 0, decrementing 0 gives 255.
pub proof fn law_wraparound(t: TapeModel)
    ensures
        t.current() == 255 ==> t.incremented().current() == 0,
        t.current() == 0 ==> t.decremented().current() == 255,
{
}

} // verus!
