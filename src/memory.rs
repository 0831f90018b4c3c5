//! The word arena that process bodies and the kernel share, and the typed
//! cells that read and write one word of it.
use vstd::prelude::*;

verus! {

/// The all-ones mask over the low `width` bits of a word.
pub open spec fn width_mask(width: u64) -> u64 {
    if width >= 64 {
        u64::MAX
    } else {
        ((1u64 << width) - 1) as u64
    }
}

/// What a cell of `width` bits stores when `value` is written to it.
pub open spec fn truncated(value: u64, width: u64) -> u64 {
    value & width_mask(width)
}

/// Truncating twice to the same width changes nothing.
pub proof fn lemma_truncated_idempotent(value: u64, width: u64)
    ensures
        truncated(truncated(value, width), width) == truncated(value, width),
{
    let m = width_mask(width);
    assert((value & m) & m == value & m) by (bit_vector);
}

/// The mask of `width` bits, for a width the arena supports.
pub fn mask_of_width(width: u64) -> (r: u64)
    requires
        width <= 64,
    ensures
        r == width_mask(width),
{
    if width == 64 {
        u64::MAX
    } else {
        assert(1u64 << width >= 1) by (bit_vector)
            requires
                width < 64,
        ;
        (1u64 << width) - 1
    }
}

/// `s` extended with zero words up to length `n`, or `s` itself when it is
/// already that long.
pub open spec fn grown(s: Seq<u64>, n: nat) -> Seq<u64> {
    if s.len() >= n {
        s
    } else {
        s + Seq::new((n - s.len()) as nat, |_i: int| 0u64)
    }
}

/// The linear word region shared by the kernel and the process bodies it
/// runs. Word `2 * i` holds the current value of slot `i`, word `2 * i + 1`
/// its next value.
pub struct WASMInstance {
    words: Vec<u64>,
}

impl View for WASMInstance {
    type V = Seq<u64>;

    closed spec fn view(&self) -> Seq<u64> {
        self.words@
    }
}

impl WASMInstance {
    /// An empty arena.
    pub fn new() -> (r: Self)
        ensures
            r@ == Seq::<u64>::empty(),
    {
        WASMInstance { words: Vec::new() }
    }

    /// The number of words in the arena.
    pub fn len(&self) -> (r: usize)
        ensures
            r == self@.len(),
    {
        self.words.len()
    }

    /// The word at `offset`.
    pub fn read(&self, offset: usize) -> (r: u64)
        requires
            offset < self@.len(),
        ensures
            r == self@[offset as int],
    {
        self.words[offset]
    }

    /// Stores `value`, truncated to `width` bits, at `offset`.
    pub fn write(&mut self, offset: usize, value: u64, width: u64)
        requires
            offset < old(self)@.len(),
            width <= 64,
        ensures
            final(self)@ == old(self)@.update(offset as int, truncated(value, width)),
    {
        let m = mask_of_width(width);
        self.words.set(offset, value & m);
    }

    /// Extends the arena with zero words until it holds at least `n` words.
    pub fn grow_to(&mut self, n: usize)
        ensures
            final(self)@ == grown(old(self)@, n as nat),
    {
        let ghost start = self.words@;
        if self.words.len() < n {
            while self.words.len() < n
                invariant
                    start.len() < n,
                    start.len() <= self.words@.len() <= n,
                    self.words@ == start + Seq::new(
                        (self.words@.len() - start.len()) as nat,
                        |_i: int| 0u64,
                    ),
                decreases n - self.words@.len(),
            {
                self.words.push(0);
                assert(self.words@ == start + Seq::new(
                    (self.words@.len() - start.len()) as nat,
                    |_i: int| 0u64,
                ));
            }
        }
    }
}

/// A typed view of one word of the arena: the word's index and the number
/// of bits that the value it holds may use.
#[derive(Clone, Copy)]
pub struct WASMValue {
    pub offset: usize,
    pub length: u64,
}

impl WASMValue {
    /// A cell of `length` bits over word `offset`, which is set to `value`.
    /// The arena grows to hold that word if it is too short.
    pub fn new(instance: &mut WASMInstance, length: u64, offset: usize, value: u64) -> (r: Self)
        requires
            length <= 64,
            offset < usize::MAX,
        ensures
            r.offset == offset,
            r.length == length,
            final(instance)@ == grown(old(instance)@, offset as nat + 1).update(
                offset as int,
                truncated(value, length),
            ),
    {
        instance.grow_to(offset + 1);
        let cell = WASMValue { offset, length };
        cell.set(instance, value);
        cell
    }

    /// Stores `value`, truncated to the cell's width, in the cell's word.
    pub fn set(&self, instance: &mut WASMInstance, value: u64)
        requires
            self.offset < old(instance)@.len(),
            self.length <= 64,
        ensures
            final(instance)@ == old(instance)@.update(
                self.offset as int,
                truncated(value, self.length),
            ),
    {
        instance.write(self.offset, value, self.length);
    }

    /// The word the cell stands on, as stored.
    pub fn get(&self, instance: &WASMInstance) -> (r: u64)
        requires
            self.offset < instance@.len(),
        ensures
            r == instance@[self.offset as int],
    {
        instance.read(self.offset)
    }
}

} // verus!
