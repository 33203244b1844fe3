//! Views that carry no state of their own: they change how their children
//! are laid out (a new layer, clipping, a margin, filling the space) or
//! draw a separator.
use vstd::prelude::*;
use crate::geom;
use crate::layout::Axis;

verus! {

/// Lays its children out on a new layer, over the views laid out before.
#[derive(Copy, Clone, Debug, PartialEq, Eq, Structural)]
pub struct Float;

/// Clips what its children draw to its own rectangle.
#[derive(Copy, Clone, Debug, PartialEq, Eq, Structural)]
pub struct Clip;

/// A new event and drawing layer for its children.
#[derive(Copy, Clone, Debug, PartialEq, Eq, Structural)]
pub struct Layer;

/// Groups its children without changing their layout.
#[derive(Copy, Clone, Debug, PartialEq, Eq, Structural)]
pub struct Scope;

/// The root of the view tree.
#[derive(Copy, Clone, Debug, PartialEq, Eq, Structural)]
pub struct Root;

/// Takes all the space left along its parent's axis.
#[derive(Copy, Clone, Debug, PartialEq, Eq, Structural)]
pub struct Expander;

/// A dashed line across its parent's axis.
#[derive(Copy, Clone, Debug, PartialEq, Eq, Structural)]
pub struct Separator;

/// A draggable line between two panes laid out along `axis`.
#[derive(Copy, Clone, Debug, PartialEq, Eq, Structural)]
pub struct Splitter {
    pub axis: Axis,
}

/// Surrounds its children with a margin.
#[derive(Copy, Clone, Debug, PartialEq, Eq, Structural)]
pub struct Margin {
    pub margin: geom::Margin,
}

impl Margin {
    pub fn new(margin: geom::Margin) -> (m: Margin)
        ensures
            m == (Margin { margin }),
    {
        Margin { margin }
    }
}

/// A view on a new layer.
pub fn float() -> (f: Float)
    ensures
        f == Float,
{
    Float
}

/// A view that clips its children.
pub fn clip() -> (c: Clip)
    ensures
        c == Clip,
{
    Clip
}

/// What every view type is: here, any type.
pub trait ViewMarker {}

impl<T> ViewMarker for T {}

} // verus!
