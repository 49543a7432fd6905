//! Where the key list starts so that the selected row stays in view.
//!
//! The policy is centering: the selection is put on the middle row of the
//! window, `height / 2`, as far as the ends of the list allow.
use vstd::prelude::*;

verus! {

/// The first row shown: the selection minus half the height, kept within
/// `0 ..= count - height`, and 0 when the whole list fits.
pub open spec fn centered_offset(selected: int, count: int, height: int) -> int {
    if count <= height {
        0
    } else {
        let want = if selected > height / 2 {
            selected - height / 2
        } else {
            0
        };
        if want < count - height {
            want
        } else {
            count - height
        }
    }
}

/// The scroll offset of a list of `visible_count` rows in a window of
/// `viewport_height` rows with `selected_index` selected.
pub fn list_offset(selected_index: usize, visible_count: usize, viewport_height: usize) -> (r: usize)
    ensures
        r == centered_offset(selected_index as int, visible_count as int, viewport_height as int),
        visible_count <= viewport_height ==> r == 0,
        visible_count > viewport_height ==> r <= visible_count - viewport_height,
        selected_index < visible_count && viewport_height > 0 ==> r <= selected_index < r + viewport_height,
{
    if visible_count <= viewport_height {
        return 0;
    }
    let middle = viewport_height / 2;
    let want = if selected_index > middle {
        selected_index - middle
    } else {
        0
    };
    let max_offset = visible_count - viewport_height;
    if want < max_offset {
        want
    } else {
        max_offset
    }
}

} // verus!
