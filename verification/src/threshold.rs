use vstd::prelude::*;

verus! {

/// Smallest cutover size that a `Threshold` can hold.
pub const MIN_THRESHOLD: usize = 64;

/// Largest cutover size that a `Threshold` can hold.
pub const MAX_THRESHOLD: usize = 512;

/// `value` brought into `[MIN_THRESHOLD, MAX_THRESHOLD]`.
pub open spec fn clamp_spec(value: int) -> int {
    if value < MIN_THRESHOLD as int {
        MIN_THRESHOLD as int
    } else if value > MAX_THRESHOLD as int {
        MAX_THRESHOLD as int
    } else {
        value
    }
}

/// The matrix size at or below which the recursive multiplication stops
/// subdividing and multiplies directly.
#[derive(Clone, Copy, Debug)]
pub struct Threshold {
    value: usize,
}

impl Threshold {
    /// The cutover size held, as a mathematical integer.
    pub closed spec fn view(&self) -> int {
        self.value as int
    }

    /// The cutover size lies within the two bounds.
    pub open spec fn wf(&self) -> bool {
        MIN_THRESHOLD as int <= self@ <= MAX_THRESHOLD as int
    }

    /// A controller holding the smallest cutover size.
    pub fn new() -> (t: Threshold)
        ensures
            t@ == MIN_THRESHOLD as int,
            t.wf(),
    {
        Threshold { value: MIN_THRESHOLD }
    }

    /// Stores `value`, silently brought into the valid range.
    pub fn set_threshold(&mut self, value: usize)
        ensures
            final(self)@ == clamp_spec(value as int),
            final(self).wf(),
    {
        if value < MIN_THRESHOLD {
            self.value = MIN_THRESHOLD;
        } else if value > MAX_THRESHOLD {
            self.value = MAX_THRESHOLD;
        } else {
            self.value = value;
        }
    }

    /// The cutover size currently stored.
    pub fn get_threshold(&self) -> (value: usize)
        ensures
            value as int == self@,
    {
        self.value
    }
}

} // verus!
