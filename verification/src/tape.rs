use vstd::prelude::*;

verus! {

/// How many cells past a newly addressed position are allocated in one step,
/// so that long runs of single-cell pointer advances stay amortized-linear
/// instead of resizing on every advance.
pub const GROW_BATCH: usize = 1000;

/// The highest position a tape pointer may ever reach. Keeping one growth
/// batch of headroom below `usize::MAX` means the allocation target
/// `position + GROW_BATCH` always fits in a `usize`.
pub open spec fn max_pos() -> int {
    usize::MAX - GROW_BATCH
}

/// An element a tape can store: copyable, with a fixed blank value that every
/// never-written cell reads as.
pub trait TapeElem: Copy + Sized {
    /// The blank value, as a mathematical value.
    spec fn blank() -> Self;

    /// Produce the blank value.
    fn blank_elem() -> (r: Self)
        ensures
            r == Self::blank(),
    ;
}

impl TapeElem for u8 {
    open spec fn blank() -> u8 {
        0u8
    }

    fn blank_elem() -> u8 {
        0u8
    }
}

impl TapeElem for char {
    open spec fn blank() -> char {
        '\0'
    }

    fn blank_elem() -> char {
        '\0'
    }
}

/// A conceptually infinite, right-extending sequence of `T` addressed by a
/// single movable pointer. Backed by a growable buffer; positions beyond the
/// buffer read as the blank value, and the buffer grows (never shrinks) when
/// the pointer seeks past it.
pub struct Tape<T> {
    data: Vec<T>,
    ptr: usize,
}

impl<T: TapeElem> Tape<T> {
    /// The allocated cells, including any blank tail from batch growth.
    pub closed spec fn contents(&self) -> Seq<T> {
        self.data@
    }

    /// The pointer, as a mathematical integer.
    pub closed spec fn pos_spec(&self) -> int {
        self.ptr as int
    }

    /// What the conceptually infinite tape holds at position `i`: the
    /// allocated cell if `i` is in range, the blank value otherwise.
    pub open spec fn cell(&self, i: int) -> T {
        if 0 <= i < self.contents().len() {
            self.contents()[i]
        } else {
            T::blank()
        }
    }

    /// The tape's invariant: the pointer addresses an allocated cell and
    /// never exceeds the maximum position. Every constructor establishes it
    /// and every method preserves it.
    pub open spec fn wf(&self) -> bool {
        &&& 0 <= self.pos_spec() < self.contents().len()
        &&& self.pos_spec() <= max_pos()
    }

    /// Grow the buffer, if needed, so that `ptr_pos` is an allocated cell.
    /// Growth goes to `ptr_pos + GROW_BATCH` in one step; new cells are blank,
    /// so the infinite view of the tape does not change.
    fn allocate_for_ptr(&mut self, ptr_pos: usize)
        requires
            ptr_pos <= max_pos(),
        ensures
            final(self).pos_spec() == old(self).pos_spec(),
            final(self).contents().len() > ptr_pos,
            final(self).contents().len() >= old(self).contents().len(),
            forall|i: int| final(self).cell(i) == old(self).cell(i),
    {
        if self.data.len() < ptr_pos + 1 {
            let target = ptr_pos + GROW_BATCH;
            while self.data.len() < target
                invariant
                    self.ptr == old(self).ptr,
                    self.data@.len() >= old(self).data@.len(),
                    forall|i: int|
                        0 <= i < old(self).data@.len() ==> self.data@[i] == old(self).data@[i],
                    forall|i: int|
                        old(self).data@.len() <= i < self.data@.len() ==> self.data@[i]
                            == T::blank(),
                decreases target - self.data@.len(),
            {
                self.data.push(T::blank_elem());
            }
        }
    }

    /// A fresh tape: position 0 is allocated, the pointer is at 0, and every
    /// cell reads as the blank value.
    pub fn new() -> (t: Tape<T>)
        ensures
            t.wf(),
            t.pos_spec() == 0,
            forall|i: int| t.cell(i) == T::blank(),
    {
        let mut t = Tape { data: Vec::new(), ptr: 0 };
        t.allocate_for_ptr(0);
        t
    }

    /// The element under the pointer. Never fails: the invariant keeps the
    /// pointer on an allocated cell.
    pub fn get(&self) -> (r: T)
        requires
            self.wf(),
        ensures
            r == self.cell(self.pos_spec()),
    {
        self.data[self.ptr]
    }

    /// Overwrite the element under the pointer. No growth happens here: the
    /// invariant already guarantees the pointer addresses an allocated cell.
    pub fn set(&mut self, elem: T)
        requires
            old(self).wf(),
        ensures
            final(self).wf(),
            final(self).pos_spec() == old(self).pos_spec(),
            final(self).cell(old(self).pos_spec()) == elem,
            forall|i: int|
                i != old(self).pos_spec() ==> final(self).cell(i) == old(self).cell(i),
    {
        self.data[self.ptr] = elem;
    }

    /// Move the pointer by `offset`. Fails, leaving the tape unchanged, when
    /// the resulting position would be negative, or would pass the maximum
    /// position the backing store can allocate for. On success the buffer is
    /// grown as needed; what every cell reads as never changes.
    pub fn seek(&mut self, offset: i32) -> (r: Result<(), &'static str>)
        requires
            old(self).wf(),
        ensures
            final(self).wf(),
            forall|i: int| final(self).cell(i) == old(self).cell(i),
            r is Ok <==> 0 <= old(self).pos_spec() + offset <= max_pos(),
            r is Ok ==> final(self).pos_spec() == old(self).pos_spec() + offset,
            r is Err ==> final(self).pos_spec() == old(self).pos_spec(),
    {
        if offset >= 0 {
            let off = offset as usize;
            if self.ptr > usize::MAX - GROW_BATCH - off {
                return Err("Attempted to move tape head past the maximum position.");
            }
            let new_ptr = self.ptr + off;
            self.allocate_for_ptr(new_ptr);
            self.ptr = new_ptr;
            Ok(())
        } else {
            let mag = (-(offset as i64)) as usize;
            if mag > self.ptr {
                return Err("Attempted to move tape head below 0.");
            }
            self.ptr = self.ptr - mag;
            Ok(())
        }
    }

    /// Move the pointer to the absolute position `p`, growing as needed.
    pub(crate) fn seek_to(&mut self, p: usize)
        requires
            old(self).wf(),
            p <= max_pos(),
        ensures
            final(self).wf(),
            final(self).pos_spec() == p,
            forall|i: int| final(self).cell(i) == old(self).cell(i),
    {
        self.allocate_for_ptr(p);
        self.ptr = p;
    }

    /// The element under the pointer, advancing the pointer by one.
    pub fn next(&mut self) -> (r: T)
        requires
            old(self).wf(),
            old(self).pos_spec() < max_pos(),
        ensures
            final(self).wf(),
            r == old(self).cell(old(self).pos_spec()),
            final(self).pos_spec() == old(self).pos_spec() + 1,
            forall|i: int| final(self).cell(i) == old(self).cell(i),
    {
        let elem = self.get();
        let _ = self.seek(1);
        elem
    }

    /// The current pointer position.
    pub fn pos(&self) -> (r: usize)
        ensures
            r == self.pos_spec(),
    {
        self.ptr
    }

    /// Rewind the pointer to 0 without touching any cell.
    pub fn zero(&mut self)
        requires
            old(self).wf(),
        ensures
            final(self).wf(),
            final(self).pos_spec() == 0,
            forall|i: int| final(self).cell(i) == old(self).cell(i),
    {
        self.ptr = 0;
    }

    /// Bulk construction: a tape whose first `elems.len()` positions hold the
    /// given elements in order, every later position blank, pointer at 0.
    pub fn from_elems(elems: &Vec<T>) -> (t: Tape<T>)
        requires
            elems@.len() <= max_pos(),
        ensures
            t.wf(),
            t.pos_spec() == 0,
            forall|i: int| 0 <= i < elems@.len() ==> t.cell(i) == elems@[i],
            forall|i: int| i >= elems@.len() ==> t.cell(i) == T::blank(),
    {
        let mut t = Tape::<T>::new();
        let mut k: usize = 0;
        while k < elems.len()
            invariant
                t.wf(),
                elems@.len() <= max_pos(),
                k <= elems@.len(),
                t.pos_spec() == k,
                forall|i: int| 0 <= i < k ==> t.cell(i) == elems@[i],
                forall|i: int| i >= k ==> t.cell(i) == T::blank(),
            decreases elems@.len() - k,
        {
            t.set(elems[k]);
            let _ = t.seek(1);
            k = k + 1;
        }
        t.zero();
        t
    }
}

/// One abstract operation on a tape: move the pointer by an offset, or write
/// a value at it. `seek` realizes `Move`, `set` realizes `Write`.
pub enum TapeOp<T> {
    Move(i32),
    Write(T),
}

/// The mathematical model of a tape: the pointer, and the positions written
/// so far with their values. Positions never written read as the blank value.
#[verifier::ext_equal]
pub struct TapeModel<T> {
    pub pos: int,
    pub written: Map<int, T>,
}

/// What the modelled tape reads at position `i`.
pub open spec fn model_read<T: TapeElem>(m: TapeModel<T>, i: int) -> T {
    if m.written.dom().contains(i) {
        m.written[i]
    } else {
        T::blank()
    }
}

/// The model of a fresh tape: pointer at 0, nothing written.
pub open spec fn model_init<T>() -> TapeModel<T> {
    TapeModel { pos: 0, written: Map::empty() }
}

/// One operation applied to the model.
pub open spec fn model_apply<T>(m: TapeModel<T>, op: TapeOp<T>) -> TapeModel<T> {
    match op {
        TapeOp::Move(k) => TapeModel { pos: m.pos + k, ..m },
        TapeOp::Write(v) => TapeModel { written: m.written.insert(m.pos, v), ..m },
    }
}

/// A whole sequence of operations applied to the model, in order.
pub open spec fn model_apply_all<T>(m: TapeModel<T>, ops: Seq<TapeOp<T>>) -> TapeModel<T>
    decreases ops.len(),
{
    if ops.len() == 0 {
        m
    } else {
        model_apply(model_apply_all(m, ops.drop_last()), ops.last())
    }
}

/// The pointer never goes negative at any point of the sequence — the moves a
/// concrete tape would carry out without failing.
pub open spec fn model_ops_valid<T>(m: TapeModel<T>, ops: Seq<TapeOp<T>>) -> bool
    decreases ops.len(),
{
    if ops.len() == 0 {
        0 <= m.pos
    } else {
        model_ops_valid(m, ops.drop_last()) && 0 <= model_apply_all(m, ops).pos
    }
}

/// The value of the last `Write` that happened while the pointer stood at
/// position `q`, if there was one.
pub open spec fn last_write_at<T>(m: TapeModel<T>, ops: Seq<TapeOp<T>>, q: int) -> Option<T>
    decreases ops.len(),
{
    if ops.len() == 0 {
        None
    } else {
        match ops.last() {
            TapeOp::Write(v) => if model_apply_all(m, ops.drop_last()).pos == q {
                Some(v)
            } else {
                last_write_at(m, ops.drop_last(), q)
            },
            TapeOp::Move(_) => last_write_at(m, ops.drop_last(), q),
        }
    }
}

/// After any sequence of moves and writes, any position reads as the last
/// value written there, or as whatever the starting model read if none was.
pub proof fn lemma_model_read_last_write<T: TapeElem>(
    m: TapeModel<T>,
    ops: Seq<TapeOp<T>>,
    q: int,
)
    ensures
        model_read(model_apply_all(m, ops), q) == (match last_write_at(m, ops, q) {
            Some(v) => v,
            None => model_read(m, q),
        }),
    decreases ops.len(),
{
    if ops.len() > 0 {
        lemma_model_read_last_write(m, ops.drop_last(), q);
    }
}

/// On a fresh tape, after any sequence of pointer moves that never goes
/// negative and writes under the pointer, reading the cell at the resulting
/// position gives the value last written at that position, or the blank value
/// if that position was never written.
pub proof fn lemma_get_reads_last_write<T: TapeElem>(ops: Seq<TapeOp<T>>)
    requires
        model_ops_valid(model_init::<T>(), ops),
    ensures
        ({
            let mf = model_apply_all(model_init::<T>(), ops);
            model_read(mf, mf.pos) == (match last_write_at(model_init::<T>(), ops, mf.pos) {
                Some(v) => v,
                None => T::blank(),
            })
        }),
{
    let mf = model_apply_all(model_init::<T>(), ops);
    lemma_model_read_last_write(model_init::<T>(), ops, mf.pos);
}

/// A tape realizes a model when the pointer agrees and every cell reads as
/// the model reads.
pub open spec fn models<T: TapeElem>(t: Tape<T>, m: TapeModel<T>) -> bool {
    &&& t.pos_spec() == m.pos
    &&& forall|i: int| 0 <= i ==> t.cell(i) == model_read(m, i)
}

/// A fresh tape realizes the fresh model: this is what `new` ensures.
pub proof fn lemma_new_models<T: TapeElem>(t: Tape<T>)
    requires
        t.pos_spec() == 0,
        forall|i: int| t.cell(i) == T::blank(),
    ensures
        models(t, model_init::<T>()),
{
}

/// A tape changed as `set`'s contract says realizes the model after a `Write`.
pub proof fn lemma_set_tracks_model<T: TapeElem>(
    pre: Tape<T>,
    post: Tape<T>,
    m: TapeModel<T>,
    v: T,
)
    requires
        models(pre, m),
        0 <= m.pos,
        post.pos_spec() == pre.pos_spec(),
        post.cell(pre.pos_spec()) == v,
        forall|i: int| i != pre.pos_spec() ==> post.cell(i) == pre.cell(i),
    ensures
        models(post, model_apply(m, TapeOp::Write(v))),
{
}

/// A tape changed as a successful `seek` says realizes the model after a `Move`.
pub proof fn lemma_seek_tracks_model<T: TapeElem>(
    pre: Tape<T>,
    post: Tape<T>,
    m: TapeModel<T>,
    k: i32,
)
    requires
        models(pre, m),
        post.pos_spec() == pre.pos_spec() + k,
        forall|i: int| post.cell(i) == pre.cell(i),
    ensures
        models(post, model_apply(m, TapeOp::Move(k))),
{
}

} // verus!

