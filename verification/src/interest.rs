//! The kinds of events a view wants to receive, as bit flags.
use vstd::prelude::*;
use vstd::std_specs::ops::{BitAndSpec, BitOrSpec, BitXorSpec};
use vstd::string::*;

verus! {

/// Interests for events that a view wants to receive.
#[derive(Copy, Clone, Debug, PartialEq, Eq, Structural)]
pub struct Interest(pub u8);

/// Bit of [`Interest::mouse_inside`].
pub open spec fn mouse_inside_bit() -> u8 {
    1
}

/// Bit of [`Interest::mouse_outside`].
pub open spec fn mouse_outside_bit() -> u8 {
    2
}

/// Bit of [`Interest::mouse_move`].
pub open spec fn mouse_move_bit() -> u8 {
    4
}

/// Bit of [`Interest::focus`].
pub open spec fn focus_bit() -> u8 {
    8
}

/// Bit of [`Interest::focus_input`].
pub open spec fn focus_input_bit() -> u8 {
    16
}

/// Bit of [`Interest::selection_change`].
pub open spec fn selection_change_bit() -> u8 {
    32
}

impl Interest {
    pub open spec fn has(self, bit: u8) -> bool {
        self.0 & bit != 0
    }

    /// No events should be sent to the view.
    pub fn none() -> (r: Interest)
        ensures
            r.0 == 0,
    {
        Interest(0)
    }

    /// All events should be sent to the view.
    pub fn all() -> (r: Interest)
        ensures
            r.0 == u8::MAX,
    {
        Interest(255)
    }

    /// Mouse events inside the view.
    pub fn mouse_inside() -> (r: Interest)
        ensures
            r.0 == mouse_inside_bit(),
    {
        Interest(1)
    }

    /// Mouse events outside the view.
    pub fn mouse_outside() -> (r: Interest)
        ensures
            r.0 == mouse_outside_bit(),
    {
        Interest(2)
    }

    /// Mouse move events.
    pub fn mouse_move() -> (r: Interest)
        ensures
            r.0 == mouse_move_bit(),
    {
        Interest(4)
    }

    /// Focus gained and lost events.
    pub fn focus() -> (r: Interest)
        ensures
            r.0 == focus_bit(),
    {
        Interest(8)
    }

    /// Key inputs.
    pub fn focus_input() -> (r: Interest)
        ensures
            r.0 == focus_input_bit(),
    {
        Interest(16)
    }

    /// Selection added and removed events.
    pub fn selection_change() -> (r: Interest)
        ensures
            r.0 == selection_change_bit(),
    {
        Interest(32)
    }

    /// All mouse events.
    pub fn mouse() -> (r: Interest)
        ensures
            r.0 == mouse_inside_bit() | mouse_outside_bit() | mouse_move_bit(),
    {
        assert(1u8 | 2u8 | 4u8 == 7u8) by (bit_vector);
        Interest(7)
    }

    pub fn is_none(&self) -> (r: bool)
        ensures
            r == (self.0 == 0),
    {
        self.0 == 0
    }

    pub fn is_mouse_inside(&self) -> (r: bool)
        ensures
            r == self.has(mouse_inside_bit()),
    {
        self.0 & 1 != 0
    }

    pub fn is_mouse_outside(&self) -> (r: bool)
        ensures
            r == self.has(mouse_outside_bit()),
    {
        self.0 & 2 != 0
    }

    pub fn is_mouse_move(&self) -> (r: bool)
        ensures
            r == self.has(mouse_move_bit()),
    {
        self.0 & 4 != 0
    }

    pub fn is_mouse_any(&self) -> (r: bool)
        ensures
            r == (self.has(mouse_inside_bit()) || self.has(mouse_outside_bit()) || self.has(
                mouse_move_bit(),
            )),
    {
        self.is_mouse_inside() || self.is_mouse_outside() || self.is_mouse_move()
    }

    pub fn is_focus(&self) -> (r: bool)
        ensures
            r == self.has(focus_bit()),
    {
        self.0 & 8 != 0
    }

    pub fn is_focus_input(&self) -> (r: bool)
        ensures
            r == self.has(focus_input_bit()),
    {
        self.0 & 16 != 0
    }

    pub fn is_selection_change(&self) -> (r: bool)
        ensures
            r == self.has(selection_change_bit()),
    {
        self.0 & 32 != 0
    }

    /// The names of the flags that are set, joined by `" | "`, or `NONE`.
    pub fn debug_string(&self) -> (r: String)
        ensures
            r@ == interest_names(self.0),
    {
        let mut out = String::new();
        let mut seen = false;
        proof {
            reveal_strlit("MOUSE_INSIDE");
            reveal_strlit("MOUSE_OUTSIDE");
            reveal_strlit("MOUSE_MOVE");
            reveal_strlit("FOCUS");
            reveal_strlit("FOCUS_INPUT");
            reveal_strlit("SELECTION_CHANGE");
            reveal_strlit(" | ");
            reveal_strlit("NONE");
        }
        let mut flag: u8 = 0;
        assert(self.0 & low_mask(0) == 0) by {
            let b = self.0;
            assert(b & ((((1u16 << 0u8) - 1) as u8)) == 0) by (bit_vector);
        }
        while flag < 6
            invariant
                flag <= 6,
                out@ == names_from(self.0, 0, flag as nat),
                seen == (self.0 & low_mask(flag) != 0),
                !seen ==> out@.len() == 0,
            decreases 6 - flag,
        {
            if (self.0 >> flag) & 1 == 1 {
                if seen {
                    out.append(" | ");
                }
                out.append(flag_name(flag));
                seen = true;
            }
            proof {
                lemma_seen_step(self.0, flag);
            }
            flag += 1;
        }
        if !seen {
            out.append("NONE");
        }
        out
    }
}

/// The bits below `flag`.
pub open spec fn low_mask(flag: u8) -> u8 {
    (((1u16 << flag) - 1) as u8)
}

proof fn lemma_seen_step(bits: u8, flag: u8)
    requires
        flag < 6,
    ensures
        (bits & low_mask((flag + 1) as u8) != 0) == ((bits & low_mask(flag) != 0) || ((bits >> flag)
            & 1 == 1)),
{
    assert((bits & ((((1u16 << flag) - 1) as u8)) != 0 || (bits >> flag) & 1 == 1) == (bits & ((((1u16
        << ((flag + 1) as u8)) - 1) as u8)) != 0)) by (bit_vector)
        requires
            flag < 6,
    ;
}

/// The name of flag number `flag`.
pub open spec fn flag_name_spec(flag: u8) -> Seq<char> {
    if flag == 0 {
        "MOUSE_INSIDE"@
    } else if flag == 1 {
        "MOUSE_OUTSIDE"@
    } else if flag == 2 {
        "MOUSE_MOVE"@
    } else if flag == 3 {
        "FOCUS"@
    } else if flag == 4 {
        "FOCUS_INPUT"@
    } else {
        "SELECTION_CHANGE"@
    }
}

fn flag_name(flag: u8) -> (r: &'static str)
    requires
        flag < 6,
    ensures
        r@ == flag_name_spec(flag),
{
    if flag == 0 {
        "MOUSE_INSIDE"
    } else if flag == 1 {
        "MOUSE_OUTSIDE"
    } else if flag == 2 {
        "MOUSE_MOVE"
    } else if flag == 3 {
        "FOCUS"
    } else if flag == 4 {
        "FOCUS_INPUT"
    } else {
        "SELECTION_CHANGE"
    }
}

/// The names of the set flags among numbers `from..to`, joined by `" | "`,
/// with a leading separator when a flag below `from` was already set.
pub open spec fn names_from(bits: u8, from: nat, to: nat) -> Seq<char>
    decreases to,
{
    if to <= from {
        Seq::empty()
    } else {
        let prev = names_from(bits, from, (to - 1) as nat);
        let f = (to - 1) as u8;
        if (bits >> f) & 1 == 1 {
            if bits & low_mask(f) != 0 {
                prev + " | "@ + flag_name_spec(f)
            } else {
                prev + flag_name_spec(f)
            }
        } else {
            prev
        }
    }
}

/// The debug rendering of a set of interests.
pub open spec fn interest_names(bits: u8) -> Seq<char> {
    if bits & low_mask(6) != 0 {
        names_from(bits, 0, 6)
    } else {
        "NONE"@
    }
}

impl core::ops::BitAnd for Interest {
    type Output = Interest;

    fn bitand(self, rhs: Interest) -> (r: Interest) {
        Interest(self.0 & rhs.0)
    }
}

impl vstd::std_specs::ops::BitAndSpecImpl for Interest {
    open spec fn obeys_bitand_spec() -> bool {
        true
    }

    open spec fn bitand_req(self, rhs: Interest) -> bool {
        true
    }

    open spec fn bitand_spec(self, rhs: Interest) -> Interest {
        Interest(self.0 & rhs.0)
    }
}

impl core::ops::BitOr for Interest {
    type Output = Interest;

    fn bitor(self, rhs: Interest) -> (r: Interest) {
        Interest(self.0 | rhs.0)
    }
}

impl vstd::std_specs::ops::BitOrSpecImpl for Interest {
    open spec fn obeys_bitor_spec() -> bool {
        true
    }

    open spec fn bitor_req(self, rhs: Interest) -> bool {
        true
    }

    open spec fn bitor_spec(self, rhs: Interest) -> Interest {
        Interest(self.0 | rhs.0)
    }
}

impl core::ops::BitXor for Interest {
    type Output = Interest;

    fn bitxor(self, rhs: Interest) -> (r: Interest) {
        Interest(self.0 ^ rhs.0)
    }
}

impl vstd::std_specs::ops::BitXorSpecImpl for Interest {
    open spec fn obeys_bitxor_spec() -> bool {
        true
    }

    open spec fn bitxor_req(self, rhs: Interest) -> bool {
        true
    }

    open spec fn bitxor_spec(self, rhs: Interest) -> Interest {
        Interest(self.0 ^ rhs.0)
    }
}

/// `!` leaves the interests as they are.
impl core::ops::Not for Interest {
    type Output = Interest;

    fn not(self) -> (r: Interest) {
        Interest(self.0)
    }
}

impl vstd::std_specs::ops::NotSpecImpl for Interest {
    open spec fn obeys_not_spec() -> bool {
        true
    }

    open spec fn not_req(self) -> bool {
        true
    }

    open spec fn not_spec(self) -> Interest {
        self
    }
}

/// A flag is set in a union exactly when it is set in either side, and in an
/// intersection exactly when it is set in both.
pub proof fn lemma_union_intersection(a: Interest, b: Interest, bit: u8)
    requires
        bit == 1 || bit == 2 || bit == 4 || bit == 8 || bit == 16 || bit == 32,
    ensures
        BitOrSpec::bitor_spec(a, b).has(bit) == (a.has(bit) || b.has(bit)),
        BitAndSpec::bitand_spec(a, b).has(bit) == (a.has(bit) && b.has(bit)),
        BitXorSpec::bitxor_spec(a, b).has(bit) == (a.has(bit) != b.has(bit)),
{
    let (x, y) = (a.0, b.0);
    assert(((x | y) & bit != 0) == ((x & bit != 0) || (y & bit != 0))) by (bit_vector)
        requires
            bit == 1 || bit == 2 || bit == 4 || bit == 8 || bit == 16 || bit == 32,
    ;
    assert(((x & y) & bit != 0) == ((x & bit != 0) && (y & bit != 0))) by (bit_vector)
        requires
            bit == 1 || bit == 2 || bit == 4 || bit == 8 || bit == 16 || bit == 32,
    ;
    assert(((x ^ y) & bit != 0) == ((x & bit != 0) != (y & bit != 0))) by (bit_vector)
        requires
            bit == 1 || bit == 2 || bit == 4 || bit == 8 || bit == 16 || bit == 32,
    ;
}

/// `NONE` has no flag, `ALL` has every flag, and `MOUSE` has exactly the three
/// mouse flags.
pub proof fn lemma_constants(bit: u8)
    requires
        bit == 1 || bit == 2 || bit == 4 || bit == 8 || bit == 16 || bit == 32,
    ensures
        !Interest(0).has(bit),
        Interest(u8::MAX).has(bit),
        Interest(7).has(bit) == (bit == 1 || bit == 2 || bit == 4),
{
    assert(0u8 & bit == 0) by (bit_vector);
    assert(255u8 & bit != 0) by (bit_vector)
        requires
            bit == 1 || bit == 2 || bit == 4 || bit == 8 || bit == 16 || bit == 32,
    ;
    assert((7u8 & bit != 0) == (bit == 1 || bit == 2 || bit == 4)) by (bit_vector)
        requires
            bit == 1 || bit == 2 || bit == 4 || bit == 8 || bit == 16 || bit == 32,
    ;
}

} // verus!
