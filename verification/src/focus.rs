//! Focus bookkeeping for the host's input layer.
//!
//! The engine itself dispatches no events; it only offers the host the two
//! pieces of state the input layer keeps per frame: a flattened walk order
//! of the tree ([`UiStack`]) and a stack of focus scopes
//! ([`FocusContext`]). Focus scopes are identified by plain numbers chosen
//! by the host.

use vstd::prelude::*;

use crate::store::{ElementCtx, EntityHandle};

verus! {

/// How a focused node treats events it does not handle itself.
#[derive(Clone, Copy, Debug, PartialEq, Eq, Structural)]
pub enum FocusPolicy {
    /// The node captures focus like a popup: it stacks a new scope.
    Popup,
    /// Unhandled events continue to the nodes behind this one.
    Pass,
    /// Unhandled events stop here.
    Block,
}

/// Marker the host attaches to the node currently holding focus.
#[derive(Clone, Copy, Debug, PartialEq, Eq, Structural)]
pub struct Focused;

/// Marker the host attaches to the node under the pointer.
#[derive(Clone, Copy, Debug, PartialEq, Eq, Structural)]
pub struct Hovered;

/// Marker the host attaches to a node for the frame in which it was
/// clicked.
#[derive(Clone, Copy, Debug, PartialEq, Eq, Structural)]
pub struct Clicked;

/// Marker the host attaches to a node while a pointer button is held on
/// it.
#[derive(Clone, Copy, Debug, PartialEq, Eq, Structural)]
pub struct Pressed;

/// Marker for a node whose focus scope stacks on top of the current one
/// instead of replacing it.
#[derive(Clone, Copy, Debug, PartialEq, Eq, Structural)]
pub struct FocusPopup;

/// A focus scope a node can grab: an opaque identity chosen by the host.
#[derive(Clone, Copy, Debug, PartialEq, Eq, Structural)]
pub struct FocusTarget(pub u64);

impl FocusTarget {
    /// A target with the given host-chosen identity.
    pub fn new(id: u64) -> (r: FocusTarget)
        ensures
            r == FocusTarget(id),
    {
        FocusTarget(id)
    }
}

/// The stack of focus scopes: the top is the scope that receives input.
/// Popups push a scope; closing them pops back to the one below.
pub struct FocusContext {
    stack: Vec<u64>,
}

impl FocusContext {
    /// The scopes from bottom to top.
    pub closed spec fn scopes(&self) -> Seq<u64> {
        self.stack@
    }

    /// An empty context: nothing holds focus.
    pub fn new() -> (r: FocusContext)
        ensures
            r.scopes() == Seq::<u64>::empty(),
    {
        FocusContext { stack: Vec::new() }
    }

    /// The scope currently receiving input, if any.
    pub fn top(&self) -> (r: Option<u64>)
        ensures
            r == if self.scopes().len() == 0 {
                Option::<u64>::None
            } else {
                Option::Some(self.scopes().last())
            },
    {
        if self.stack.len() == 0 {
            None
        } else {
            Some(self.stack[self.stack.len() - 1])
        }
    }

    /// Stacks a new scope on top, as a popup does.
    pub fn push(&mut self, value: u64)
        ensures
            final(self).scopes() == old(self).scopes().push(value),
    {
        self.stack.push(value);
    }

    /// Removes and returns the top scope; focus falls back to the one
    /// below.
    pub fn pop(&mut self) -> (r: Option<u64>)
        ensures
            old(self).scopes().len() == 0 ==> (r is None) && final(self).scopes() == old(
                self,
            ).scopes(),
            old(self).scopes().len() > 0 ==> r == Option::Some(old(self).scopes().last())
                && final(self).scopes() == old(self).scopes().drop_last(),
    {
        self.stack.pop()
    }

    /// Replaces the top scope with the target's, pushing if the stack is
    /// empty.
    pub fn focus_on(&mut self, target: FocusTarget)
        ensures
            final(self).scopes() == if old(self).scopes().len() == 0 {
                old(self).scopes().push(target.0)
            } else {
                old(self).scopes().drop_last().push(target.0)
            },
    {
        self.focus_on_value(target.0);
    }

    /// Replaces the top scope with `value`, pushing if the stack is empty.
    pub fn focus_on_value(&mut self, value: u64)
        ensures
            final(self).scopes() == if old(self).scopes().len() == 0 {
                old(self).scopes().push(value)
            } else {
                old(self).scopes().drop_last().push(value)
            },
    {
        let _ = self.pop();
        self.push(value);
    }
}

impl Default for FocusContext {
    fn default() -> (r: Self)
        ensures
            r.scopes() == Seq::<u64>::empty(),
    {
        FocusContext::new()
    }
}

/// The nodes of a tree in event-propagation order: depth first, parents
/// before children, as [`crate::model::Shape::flatten`] lists them.
pub struct UiStack {
    pub stack: Vec<EntityHandle>,
}

/// Collects the walk order of the tree under `root`. Stale children are
/// skipped, subtree included, like everywhere else outside layout.
pub fn generate_ui_stack<W>(ctx: &ElementCtx<W>, root: EntityHandle) -> (r: UiStack)
    requires
        ctx.wf(),
    ensures
        r.stack@ == ctx.shape().flatten(root),
{
    let mut stack: Vec<EntityHandle> = Vec::new();
    ctx.collect_subtree(root, &mut stack);
    UiStack { stack }
}

} // verus!
