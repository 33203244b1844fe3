//! A drop-down list: which entry is chosen, and how keys and clicks move the choice.
use vstd::prelude::*;
use crate::keys::{Key, Keybind, Modifiers};
use crate::views::key_area::KeyAreaResponse;
use crate::style::{Palette, Rgba};
use vstd::std_specs::cmp::PartialEqSpec;

verus! {

/// An entry a drop-down list can show: a short name, shown when the list is
/// closed, and a long one shown when it is open.
pub trait DropDownItem: PartialEq {
    fn short(&self) -> String;

    /// Unless an entry says otherwise, its long name is its short one.
    fn long(&self) -> (r: String)
        default_ensures
            call_ensures(Self::short, (self,), r),
    {
        self.short()
    }
}

/// The entry chosen during the last frame, if any.
#[derive(Copy, Clone, Debug, PartialEq, Eq, Structural)]
pub struct DropDownResponse {
    pub selected: Option<usize>,
}

impl DropDownResponse {
    /// The chosen entry of `values`, when there is one.
    pub fn resolve<'a, V: DropDownItem>(&self, values: &'a [V]) -> (r: Option<&'a V>)
        ensures
            r == (match self.selected {
                Some(i) => if i < values@.len() {
                    Some(&values@[i as int])
                } else {
                    None
                },
                None => None,
            }),
    {
        match self.selected {
            Some(i) => if i < values.len() {
                Some(&values[i])
            } else {
                None
            },
            None => None,
        }
    }

    pub fn selected(&self) -> (r: Option<usize>)
        ensures
            r == self.selected,
    {
        self.selected
    }
}

/// The state of a drop-down list between frames.
#[derive(Copy, Clone, Debug, PartialEq, Eq, Structural)]
pub struct DropDownState {
    pub expanded: bool,
    pub index: usize,
    pub hovered: Option<usize>,
}

impl Default for DropDownState {
    fn default() -> (r: DropDownState)
        ensures
            r == (DropDownState { expanded: false, index: 0, hovered: None }),
    {
        DropDownState::new(0)
    }
}

/// Was `key` pressed without modifiers?
pub open spec fn pressed(keys: KeyAreaResponse, key: Key) -> bool {
    keys.key == Some(key) && (match keys.modifiers {
        Some(m) => m,
        None => Modifiers(0),
    }) == Modifiers(0)
}

/// The state and the chosen entry after the keys of a frame, for a list of
/// `len` entries: up and down move through the list and wrap around, right
/// opens the list, escape, left and enter close it.
pub open spec fn navigated(s: DropDownState, keys: KeyAreaResponse, len: nat, selected: Option<usize>) -> (DropDownState, Option<usize>) {
    let (index, selected) = if pressed(keys, Key::Up) {
        let i = if s.index >= 1 {
            (s.index - 1) as usize
        } else if len >= 1 {
            (len - 1) as usize
        } else {
            0usize
        };
        (i, Some(i))
    } else {
        (s.index, selected)
    };
    let (index, selected) = if pressed(keys, Key::Down) {
        let i = ((index + 1) % (len as int)) as usize;
        (i, Some(i))
    } else {
        (index, selected)
    };
    let expanded = if pressed(keys, Key::Escape) || pressed(keys, Key::Left) || pressed(keys, Key::Enter) {
        false
    } else if pressed(keys, Key::Right) {
        true
    } else {
        s.expanded
    };
    (DropDownState { expanded, index, ..s }, selected)
}

impl DropDownState {
    /// A closed list on entry `index`.
    pub fn new(index: usize) -> (r: DropDownState)
        ensures
            r == (DropDownState { expanded: false, index, hovered: None }),
    {
        DropDownState { expanded: false, index, hovered: None }
    }

    /// A closed list on the first entry equal to `selected`, or on the
    /// first entry when none is.
    pub fn from_items<V: DropDownItem>(selected: &V, items: &[V]) -> (r: DropDownState)
        ensures
            !r.expanded && r.hovered is None,
            r.index == 0 || r.index < items@.len(),
            V::obeys_eq_spec() && (exists|j: int| 0 <= j < items@.len() && (#[trigger] items@[j]).eq_spec(selected))
                ==> r.index < items@.len() && items@[r.index as int].eq_spec(selected) && forall|j: int|
                0 <= j < r.index ==> !(#[trigger] items@[j]).eq_spec(selected),
            V::obeys_eq_spec() && !(exists|j: int| 0 <= j < items@.len() && (#[trigger] items@[j]).eq_spec(selected))
                ==> r.index == 0,
    {
        let mut i: usize = 0;
        while i < items.len()
            invariant
                i <= items@.len(),
                V::obeys_eq_spec() ==> forall|j: int| 0 <= j < i ==> !(#[trigger] items@[j]).eq_spec(selected),
            decreases items@.len() - i,
        {
            if items[i] == *selected {
                return DropDownState::new(i);
            }
            i += 1;
        }
        DropDownState::new(0)
    }

    /// The background behind the long name of entry `i` of the open list:
    /// the primary color under the mouse, the secondary color on the chosen
    /// entry, none otherwise.
    pub fn entry_background(&self, i: usize, palette: &Palette) -> (r: Option<Rgba>)
        ensures
            r == (if self.hovered == Some(i) {
                Some(palette.primary)
            } else if i == self.index {
                Some(palette.secondary)
            } else {
                None
            }),
    {
        if self.hovered == Some(i) {
            Some(palette.primary)
        } else if i == self.index {
            Some(palette.secondary)
        } else {
            None
        }
    }

    /// Follow the keys caught during a frame, for a list of `len` entries.
    pub fn navigate(&mut self, keys: &KeyAreaResponse, len: usize, selected: &mut Option<usize>)
        requires
            pressed(*keys, Key::Down) ==> len > 0,
            old(self).index < usize::MAX,
        ensures
            (*final(self), *final(selected)) == navigated(*old(self), *keys, len as nat, *old(selected)),
    {
        if keys.key_pressed(Keybind::from_key(Key::Up)) {
            self.index = if self.index >= 1 {
                self.index - 1
            } else if len >= 1 {
                len - 1
            } else {
                0
            };
            *selected = Some(self.index);
        }
        if keys.key_pressed(Keybind::from_key(Key::Down)) {
            self.index = (self.index + 1) % len;
            *selected = Some(self.index);
        }
        if keys.key_pressed(Keybind::from_key(Key::Right)) {
            self.expanded = true;
        }
        if keys.key_pressed(Keybind::from_key(Key::Escape)) || keys.key_pressed(
            Keybind::from_key(Key::Left),
        ) || keys.key_pressed(Keybind::from_key(Key::Enter)) {
            self.expanded = false;
        }
    }

    /// Follow the mouse over entry `i` of the open list.
    pub fn entry_response(&mut self, i: usize, hovered: bool, clicked: bool, selected: &mut Option<usize>)
        ensures
            clicked ==> *final(self) == (DropDownState { index: i, hovered: None, ..*old(self) })
                && *final(selected) == Some(i),
            !clicked ==> *final(self) == (DropDownState {
                hovered: if hovered {
                    Some(i)
                } else {
                    old(self).hovered
                },
                ..*old(self)
            }) && *final(selected) == *old(selected),
    {
        if hovered {
            self.hovered = Some(i);
        }
        if clicked {
            self.index = i;
            *selected = Some(i);
            self.hovered = None;
        }
    }
}

/// Moving up then down through a list of `len` entries comes back to the
/// entry where it started.
pub proof fn lemma_up_then_down(index: usize, len: nat)
    requires
        index < len,
        len < usize::MAX,
    ensures
        ({
            let up = if index >= 1 {
                (index - 1) as usize
            } else {
                (len - 1) as usize
            };
            ((up + 1) % (len as int)) as usize == index
        }),
{
    if index >= 1 {
        assert((index as int) % (len as int) == index as int) by (nonlinear_arith)
            requires
                0 <= index < len,
        ;
    } else {
        assert((len as int) % (len as int) == 0) by (nonlinear_arith)
            requires
                len > 0,
        ;
    }
}

/// A frame in which only `key` was caught, with no modifier held.
pub open spec fn only_key(key: Key) -> KeyAreaResponse {
    KeyAreaResponse { key: Some(key), modifiers: None }
}

/// Up moves to the previous entry and chooses it; only from the first
/// entry does it wrap round to the last. The list stays open or closed.
pub proof fn lemma_up_goes_back(s: DropDownState, len: nat, selected: Option<usize>)
    requires
        s.index < len <= usize::MAX,
    ensures
        ({
            let (t, chosen) = navigated(s, only_key(Key::Up), len, selected);
            let expect = if s.index >= 1 {
                s.index - 1
            } else {
                len - 1
            };
            &&& t.index == expect
            &&& chosen == Some(t.index)
            &&& t.expanded == s.expanded
            &&& t.hovered == s.hovered
        }),
{
}

/// Down moves to the next entry and chooses it; only from the last entry
/// does it wrap round to the first. The list stays open or closed.
pub proof fn lemma_down_goes_forward(s: DropDownState, len: nat, selected: Option<usize>)
    requires
        s.index < len <= usize::MAX,
    ensures
        ({
            let (t, chosen) = navigated(s, only_key(Key::Down), len, selected);
            let expect = if s.index + 1 < len {
                s.index + 1
            } else {
                0
            };
            &&& t.index == expect
            &&& chosen == Some(t.index)
            &&& t.expanded == s.expanded
            &&& t.hovered == s.hovered
        }),
{
    assert(((s.index + 1) as int) % (len as int) == (if s.index + 1 < len {
        s.index + 1
    } else {
        0
    })) by (nonlinear_arith)
        requires
            s.index < len,
    ;
}

/// Up then Down comes back to the entry where it started, and so does Down
/// then Up.
pub proof fn lemma_up_down_return(s: DropDownState, len: nat, selected: Option<usize>)
    requires
        s.index < len <= usize::MAX,
    ensures
        navigated(navigated(s, only_key(Key::Up), len, selected).0, only_key(Key::Down), len, selected).0.index
            == s.index,
        navigated(navigated(s, only_key(Key::Down), len, selected).0, only_key(Key::Up), len, selected).0.index
            == s.index,
{
    lemma_up_goes_back(s, len, selected);
    let u = navigated(s, only_key(Key::Up), len, selected).0;
    lemma_down_goes_forward(u, len, selected);
    lemma_down_goes_forward(s, len, selected);
    let d = navigated(s, only_key(Key::Down), len, selected).0;
    lemma_up_goes_back(d, len, selected);
}

/// Right opens the list; Escape, Left and Enter close it; none of them
/// moves or chooses an entry.
pub proof fn lemma_open_and_close(s: DropDownState, len: nat, selected: Option<usize>)
    ensures
        navigated(s, only_key(Key::Right), len, selected) == (DropDownState { expanded: true, ..s }, selected),
        navigated(s, only_key(Key::Escape), len, selected) == (DropDownState { expanded: false, ..s }, selected),
        navigated(s, only_key(Key::Left), len, selected) == (DropDownState { expanded: false, ..s }, selected),
        navigated(s, only_key(Key::Enter), len, selected) == (DropDownState { expanded: false, ..s }, selected),
{
}

} // verus!
