//! The root driver's state: one context and at most one mounted tree.
//!
//! The driver owns the single-threaded reconciliation state.  A host event
//! loop around it feeds view trees in and applies the command identifiers
//! that come back out of routed messages to its own application data.

use vstd::prelude::*;

use crate::element::{
    dispatch_cmds, dispatch_log, dispatch_quit, dispatch_rebuilds, elem_unique, fits,
    fresh_state, lemma_wf_self_contained, nodes_of, separated, takes, wf_elem, widget_of,
    widgets_of, Element,
};
use crate::layout::forest_of;
use crate::message::{Action, Message};
use crate::reconcile::{build, route, teardown, Context};
use crate::views::{elem_count, ViewTree};

verus! {

/// A mounted application: the context plus the current element tree.
pub struct App {
    pub cx: Context,
    pub root: Option<Element>,
}

impl App {
    /// The driver's resting shape: either nothing is mounted and the forest
    /// is empty, or the mounted tree is well-formed, duplicate-free, and
    /// owns every live layout node.
    pub open spec fn inv(self) -> bool {
        match self.root {
            Some(e) => {
                &&& elem_unique(e)
                &&& wf_elem(e, self.cx.store.widgets@, forest_of(self.cx.layout.tree))
                &&& forall|n: u64|
                    #![trigger forest_of(self.cx.layout.tree).dom().contains(n)]
                    #![trigger nodes_of(e).contains(n)]
                    forest_of(self.cx.layout.tree).dom().contains(n) <==> nodes_of(e).contains(n)
            },
            None => forest_of(self.cx.layout.tree).dom() == Set::<u64>::empty(),
        }
    }

    /// A fresh driver with nothing mounted.
    pub fn new() -> (a: App)
        ensures
            a.root is None,
            a.inv(),
            a.cx.next_id == 0,
            a.cx.store.widgets@ == Seq::<crate::store::Widget>::empty(),
            a.cx.store.ops@ == Seq::<crate::store::Op>::empty(),
    {
        App { cx: Context::new(), root: None }
    }

    /// Builds the first tree.
    pub fn mount(&mut self, v: &ViewTree)
        requires
            old(self).root is None,
            old(self).inv(),
            old(self).cx.next_id + elem_count(*v) <= u64::MAX,
        ensures
            final(self).inv(),
            final(self).root matches Some(e) && fits(*v, e) && fresh_state(e),
    {
        let ghost f0 = forest_of(self.cx.layout.tree);
        let e = build(v, &mut self.cx);
        proof {
            lemma_wf_self_contained(
                e,
                self.cx.store.widgets@,
                forest_of(self.cx.layout.tree),
            );
            assert forall|n: u64|
                forest_of(self.cx.layout.tree).dom().contains(n) <==> nodes_of(e).contains(
                n,
            ) by {
                if forest_of(self.cx.layout.tree).dom().contains(n) {
                    assert(f0.dom().contains(n) || nodes_of(e).contains(n));
                }
                if nodes_of(e).contains(n) {
                    let k = choose|k: int|
                        0 <= k < nodes_of(e).len() && nodes_of(e)[k] == n;
                }
            }
        }
        self.root = Some(e);
    }

    /// Dispatches a targeted message through the mounted tree: containers
    /// forward it, the matching element consumes it exactly once, and the
    /// subtree's action comes back for the host to act on.
    pub fn deliver(&mut self, m: &mut Message) -> (a: Action)
        requires
            old(self).root is Some,
            old(self).inv(),
            old(m).target is Some,
        ensures
            final(self).root is Some,
            final(self).inv(),
            *final(m) == (if !old(m).taken && takes(old(self).root->Some_0, *old(m)) {
                Message { taken: true, ..*old(m) }
            } else {
                *old(m)
            }),
            final(self).cx.store.delivered@ == old(self).cx.store.delivered@ + dispatch_log(
                old(self).root->Some_0,
                *old(m),
            ),
            a.commands@ == dispatch_cmds(old(self).root->Some_0, *old(m)),
            a.quit == dispatch_quit(old(self).root->Some_0, *old(m)),
            a.rebuild == (dispatch_rebuilds(old(self).root->Some_0, *old(m))
                || a.commands@.len() > 0),
    {
        match &mut self.root {
            Some(root) => {
                let a = route(root, m, &mut self.cx);
                proof {
                    assert forall|n: u64|
                        forest_of(self.cx.layout.tree).dom().contains(n) <==> nodes_of(
                        self.root->Some_0,
                    ).contains(n) by {
                        assert(nodes_of(self.root->Some_0) == nodes_of(
                            old(self).root->Some_0,
                        ));
                    }
                }
                a
            },
            None => Action::new(),
        }
    }

    /// Tears the mounted tree down: every widget of the tree dies, exactly
    /// its layout nodes leave the forest (leaving it empty), and nothing
    /// else in the store is touched.
    pub fn unmount(&mut self)
        requires
            old(self).root is Some,
            old(self).inv(),
        ensures
            final(self).root is None,
            final(self).inv(),
            forest_of(final(self).cx.layout.tree).dom() == Set::<u64>::empty(),
            final(self).cx.store.widgets@.len() == old(self).cx.store.widgets@.len(),
            forall|w: usize|
                w < old(self).cx.store.widgets@.len() && #[trigger] widgets_of(
                    old(self).root->Some_0,
                ).contains(w) ==> !final(self).cx.store.widgets@[w as int].alive,
            forall|w: usize|
                w < old(self).cx.store.widgets@.len() && !widgets_of(
                    old(self).root->Some_0,
                ).contains(w) ==> final(self).cx.store.widgets@[w as int] == old(
                    self,
                ).cx.store.widgets@[w as int],
            crate::store::ops_extended(
                old(self).cx.store.ops@,
                final(self).cx.store.ops@,
                0,
                widgets_of(old(self).root->Some_0).len() as int,
            ),
            final(self).cx.store.ops@.last() == crate::store::Op::Teardown(
                widget_of(old(self).root->Some_0),
            ),
            final(self).cx.store.delivered@ == old(self).cx.store.delivered@,
            final(self).cx.next_id == old(self).cx.next_id,
    {
        let mut taken = None;
        core::mem::swap(&mut self.root, &mut taken);
        match taken {
            Some(e) => {
                proof {
                    // the tree owns every live node, so nothing outside it
                    // can point into it
                    assert forall|pp: u64, j: int|
                        forest_of(self.cx.layout.tree).dom().contains(pp) && !nodes_of(
                            e,
                        ).contains(pp) && 0 <= j < forest_of(self.cx.layout.tree)[pp].len()
                        implies !nodes_of(e).contains(
                        #[trigger] forest_of(self.cx.layout.tree)[pp][j],
                    ) by {
                        assert(nodes_of(e).contains(pp));
                    }
                    assert(separated(nodes_of(e), forest_of(self.cx.layout.tree)));
                }
                let ghost f0 = forest_of(self.cx.layout.tree);
                teardown(e, &mut self.cx);
                proof {
                    assert(forest_of(self.cx.layout.tree).dom() =~= Set::<u64>::empty()) by {
                        assert forall|n: u64|
                            !forest_of(self.cx.layout.tree).dom().contains(n) by {
                            if forest_of(self.cx.layout.tree).dom().contains(n) {
                                assert(f0.dom().contains(n) && !nodes_of(e).contains(n));
                            }
                        }
                    }
                }
            },
            None => {},
        }
    }
}

} // verus!
