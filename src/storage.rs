use vstd::prelude::*;

verus! {

/// Number of cells of the default tape.
pub const ARR_SIZE: usize = 1000;

/// The cursor one step to the right on a ring of `len` cells.
pub open spec fn right_of(cursor: int, len: int) -> int {
    if cursor + 1 == len {
        0
    } else {
        cursor + 1
    }
}

/// The cursor one step to the left on a ring of `len` cells.
pub open spec fn left_of(cursor: int, len: int) -> int {
    if cursor == 0 {
        len - 1
    } else {
        cursor - 1
    }
}

/// The cursor after `n` steps to the right on a ring of `len` cells.
pub open spec fn right_n(cursor: int, len: int, n: nat) -> int
    decreases n,
{
    if n == 0 {
        cursor
    } else {
        right_of(right_n(cursor, len, (n - 1) as nat), len)
    }
}

/// A cell value plus one, wrapping at the bounds of `i64`.
pub open spec fn incremented(v: i64) -> i64 {
    v.wrapping_add(1)
}

/// A cell value minus one, wrapping at the bounds of `i64`.
pub open spec fn decremented(v: i64) -> i64 {
    v.wrapping_sub(1)
}

/// A tape with at least one cell and the cursor on one of them.
pub open spec fn tape_ok(cells: Seq<i64>, cursor: int) -> bool {
    0 <= cursor < cells.len()
}

/// `n` steps right on a ring of `len` cells land `n` cells further, modulo `len`.
proof fn lemma_right_n_mod(cursor: int, len: int, n: nat)
    requires
        0 <= cursor < len,
    ensures
        right_n(cursor, len, n) == (cursor + n) % len,
    decreases n,
{
    if n > 0 {
        lemma_right_n_mod(cursor, len, (n - 1) as nat);
        let x = cursor + n - 1;
        let p = x % len;
        vstd::arithmetic::div_mod::lemma_mod_bound(x, len);
        if len == 1 {
            vstd::arithmetic::div_mod::lemma_mod_bound(x + 1, len);
        } else {
            vstd::arithmetic::div_mod::lemma_add_mod_noop(x, 1, len);
            vstd::arithmetic::div_mod::lemma_small_mod(1, len as nat);
            if p + 1 < len {
                vstd::arithmetic::div_mod::lemma_small_mod((p + 1) as nat, len as nat);
            } else {
                vstd::arithmetic::div_mod::lemma_mod_self_0(len);
            }
        }
    } else {
        vstd::arithmetic::div_mod::lemma_small_mod(cursor as nat, len as nat);
    }
}

/// The tape is a ring: a step right from the last cell lands on the first, a
/// step left from the first lands on the last, and as many steps right as
/// there are cells bring the cursor back to where it was.
pub proof fn lemma_tape_wraps(cursor: int, len: int)
    requires
        0 <= cursor < len,
    ensures
        right_of(len - 1, len) == 0,
        left_of(0, len) == len - 1,
        right_n(cursor, len, len as nat) == cursor,
{
    lemma_right_n_mod(cursor, len, len as nat);
    vstd::arithmetic::div_mod::lemma_mod_add_multiples_vanish(cursor, len);
    vstd::arithmetic::div_mod::lemma_small_mod(cursor as nat, len as nat);
}

/// Adding one to a cell and then subtracting one, or the other way round,
/// leaves the tape as it was.
pub proof fn lemma_add_sub_round_trip(cells: Seq<i64>, cursor: int)
    requires
        tape_ok(cells, cursor),
    ensures
        ({
            let up = cells.update(cursor, incremented(cells[cursor]));
            up.update(cursor, decremented(up[cursor])) == cells
        }),
        ({
            let down = cells.update(cursor, decremented(cells[cursor]));
            down.update(cursor, incremented(down[cursor])) == cells
        }),
{
    let up = cells.update(cursor, incremented(cells[cursor]));
    assert(up.update(cursor, decremented(up[cursor])) =~= cells);
    let down = cells.update(cursor, decremented(cells[cursor]));
    assert(down.update(cursor, incremented(down[cursor])) =~= cells);
}

/// A circular tape of signed cells with a cursor.
///
/// `cells` is the content of the tape, `cursor` the selected cell; `inv` is
/// what an implementation keeps true between calls, and implies `tape_ok`.
pub trait BfStorageSimu: Sized {
    spec fn inv(&self) -> bool;

    spec fn cells(&self) -> Seq<i64>;

    spec fn cursor(&self) -> int;

    proof fn lemma_inv_tape(&self)
        requires
            self.inv(),
        ensures
            tape_ok(self.cells(), self.cursor()),
    ;

    /// Moves the cursor one cell right, from the last cell to the first.
    fn right(&mut self)
        requires
            old(self).inv(),
        ensures
            final(self).inv(),
            final(self).cells() == old(self).cells(),
            final(self).cursor() == right_of(old(self).cursor(), old(self).cells().len() as int),
    ;

    /// Moves the cursor one cell left, from the first cell to the last.
    fn left(&mut self)
        requires
            old(self).inv(),
        ensures
            final(self).inv(),
            final(self).cells() == old(self).cells(),
            final(self).cursor() == left_of(old(self).cursor(), old(self).cells().len() as int),
    ;

    /// Adds one to the current cell, wrapping.
    fn add(&mut self)
        requires
            old(self).inv(),
        ensures
            final(self).inv(),
            final(self).cursor() == old(self).cursor(),
            final(self).cells() == old(self).cells().update(
                old(self).cursor(),
                incremented(old(self).cells()[old(self).cursor()]),
            ),
    ;

    /// Subtracts one from the current cell, wrapping.
    fn sub(&mut self)
        requires
            old(self).inv(),
        ensures
            final(self).inv(),
            final(self).cursor() == old(self).cursor(),
            final(self).cells() == old(self).cells().update(
                old(self).cursor(),
                decremented(old(self).cells()[old(self).cursor()]),
            ),
    ;

    /// The value of the current cell.
    fn get(&mut self) -> (r: i64)
        requires
            old(self).inv(),
        ensures
            final(self).inv(),
            final(self).cursor() == old(self).cursor(),
            final(self).cells() == old(self).cells(),
            r == old(self).cells()[old(self).cursor()],
    ;

    /// Overwrites the current cell.
    fn set(&mut self, value: i64)
        requires
            old(self).inv(),
        ensures
            final(self).inv(),
            final(self).cursor() == old(self).cursor(),
            final(self).cells() == old(self).cells().update(old(self).cursor(), value),
    ;
}

/// A tape of a fixed number of cells held in a vector.
pub struct BfArrayImplementation {
    index: usize,
    storage: Vec<i64>,
}

impl BfArrayImplementation {
    /// A tape of `ARR_SIZE` zero cells, the cursor on the first.
    pub fn new() -> (r: BfArrayImplementation)
        ensures
            r.inv(),
            r.cells() == Seq::new(ARR_SIZE as nat, |i: int| 0i64),
            r.cursor() == 0,
    {
        BfArrayImplementation::with_capacity(ARR_SIZE)
    }

    /// A tape of `capacity` zero cells, the cursor on the first.
    pub fn with_capacity(capacity: usize) -> (r: BfArrayImplementation)
        requires
            capacity > 0,
        ensures
            r.inv(),
            r.cells() == Seq::new(capacity as nat, |i: int| 0i64),
            r.cursor() == 0,
    {
        let mut storage: Vec<i64> = Vec::new();
        let mut n: usize = 0;
        while n < capacity
            invariant
                n <= capacity,
                storage@ == Seq::new(n as nat, |i: int| 0i64),
            decreases capacity - n,
        {
            storage.push(0);
            n = n + 1;
        }
        BfArrayImplementation { index: 0, storage }
    }
}

impl BfStorageSimu for BfArrayImplementation {
    closed spec fn inv(&self) -> bool {
        self.index < self.storage.len()
    }

    closed spec fn cells(&self) -> Seq<i64> {
        self.storage@
    }

    closed spec fn cursor(&self) -> int {
        self.index as int
    }

    proof fn lemma_inv_tape(&self) {
    }

    fn right(&mut self) {
        if self.index + 1 == self.storage.len() {
            self.index = 0;
        } else {
            self.index += 1;
        }
    }

    fn left(&mut self) {
        if self.index == 0 {
            self.index = self.storage.len() - 1;
        } else {
            self.index -= 1;
        }
    }

    fn add(&mut self) {
        let v: i64 = self.storage[self.index];
        self.storage.set(self.index, v.wrapping_add(1));
    }

    fn sub(&mut self) {
        let v: i64 = self.storage[self.index];
        self.storage.set(self.index, v.wrapping_sub(1));
    }

    fn get(&mut self) -> (r: i64) {
        self.storage[self.index]
    }

    fn set(&mut self, value: i64) {
        self.storage.set(self.index, value);
    }
}

} // verus!
