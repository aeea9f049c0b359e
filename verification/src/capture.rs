//! Which frames become photos, and which rendition of a stored photo is kept.

use vstd::prelude::*;

verus! {

/// Whether the frame with this number, counted from zero, is captured when
/// every `frequency`-th frame is.
pub open spec fn is_due(frame: int, frequency: int) -> bool {
    frame % frequency == 0
}

/// Whether a frame is captured. The frequency is at least one.
pub fn due(frame: usize, frequency: usize) -> (captured: bool)
    requires
        frequency > 0,
    ensures
        captured == is_due(frame as int, frequency as int),
{
    frame % frequency == 0
}

/// `at` is the first index of a greatest width.
pub open spec fn is_widest(widths: Seq<i64>, at: int) -> bool {
    &&& 0 <= at < widths.len()
    &&& forall|j: int| 0 <= j < widths.len() ==> widths[j] <= widths[at]
    &&& forall|j: int| 0 <= j < at ==> widths[j] < widths[at]
}

/// The rendition to keep of a photo that the store offers in several widths:
/// the widest, and of several widest the first. `None` where there is none.
pub fn widest(widths: &Vec<i64>) -> (at: Option<usize>)
    ensures
        at is None <==> widths@.len() == 0,
        at matches Some(i) ==> is_widest(widths@, i as int),
{
    if widths.len() == 0 {
        return None;
    }
    let mut best: usize = 0;
    let mut i: usize = 1;
    while i < widths.len()
        invariant
            1 <= i <= widths@.len(),
            best < i,
            forall|j: int| 0 <= j < i ==> widths@[j] <= widths@[best as int],
            forall|j: int| 0 <= j < best ==> widths@[j] < widths@[best as int],
        decreases widths@.len() - i,
    {
        if widths[i] > widths[best] {
            best = i;
        }
        i = i + 1;
    }
    Some(best)
}

} // verus!
