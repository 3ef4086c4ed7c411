//! Windows: closing them.

use crate::commands::buffers::{
    buffers_remaining_impl, debug_list, modified_ids, modified_names, unsaved_focus, unsaved_text,
    Buffer, Unsaved,
};
use vstd::prelude::*;

verus! {

/// Whether the current window may be closed: the last one may not while buffers are modified.
pub fn wclose(views: usize, buffers: &Vec<Buffer>, current: u64) -> (refused: Option<Unsaved>)
    ensures
        ({
            let modified = modified_ids(buffers@, buffers@.len());
            let names = modified_names(buffers@, buffers@.len());
            match refused {
                None => views != 1 || modified.len() == 0,
                Some(u) => {
                    &&& views == 1
                    &&& modified.len() > 0
                    &&& u.focus == unsaved_focus(modified, current)
                    &&& u.message@ == unsaved_text(modified.len(), debug_list(names))
                },
            }
        }),
{
    if views == 1 {
        buffers_remaining_impl(buffers, current)
    } else {
        None
    }
}

/// The views among the first `n` that are not in focus.
pub open spec fn unfocused(views: Seq<(u64, bool)>, n: nat) -> Seq<u64>
    decreases n,
{
    if n == 0 {
        Seq::empty()
    } else {
        let before = unfocused(views, (n - 1) as nat);
        if views[n - 1].1 {
            before
        } else {
            before.push(views[n - 1].0)
        }
    }
}

/// The views to close so that only the one in focus is left.
pub fn wonly(views: &Vec<(u64, bool)>) -> (closed: Vec<u64>)
    ensures
        closed@ == unfocused(views@, views@.len()),
{
    let mut closed: Vec<u64> = Vec::new();
    let mut i: usize = 0;
    while i < views.len()
        invariant
            i <= views@.len(),
            closed@ == unfocused(views@, i as nat),
        decreases views.len() - i,
    {
        if !views[i].1 {
            closed.push(views[i].0);
        }
        i += 1;
    }
    closed
}

/// The views that are closed are those that are not in focus.
pub proof fn all_but_the_focused_views_are_closed(views: Seq<(u64, bool)>, n: nat, view: u64)
    requires
        n <= views.len(),
    ensures
        unfocused(views, n).contains(view) <==> exists|i: int| 0 <= i < n && (#[trigger] views[i]).0 == view && !views[i].1,
    decreases n,
{
    if n > 0 {
        let m = (n - 1) as nat;
        all_but_the_focused_views_are_closed(views, m, view);
        let a = unfocused(views, m);
        let b = unfocused(views, n);
        if b.len() > a.len() {
            assert(b[a.len() as int] == b.last());
        }
        if a.contains(view) {
            let k = choose|k: int| 0 <= k < a.len() && a[k] == view;
            assert(b[k] == view);
        } else if b.contains(view) {
            let k = choose|k: int| 0 <= k < b.len() && b[k] == view;
            if k < a.len() {
                assert(a[k] == view);
            }
        }
    }
}

} // verus!
