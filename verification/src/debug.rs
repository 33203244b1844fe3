//! The debug overlay: a bounded queue of messages drawn over the interface.
use vstd::prelude::*;
use crate::helpers::{newest, pushed, Queue};

verus! {

/// How the overlay keeps its messages.
#[derive(Copy, Clone, Debug, PartialEq, Eq, Structural)]
pub enum DebugMode {
    /// The queue is emptied every frame.
    PerFrame,
    /// The queue is kept across frames, dropping the oldest messages.
    Rolling,
    /// Messages are ignored.
    Off,
}

impl Default for DebugMode {
    fn default() -> (m: DebugMode)
        ensures
            m == DebugMode::Rolling,
    {
        DebugMode::Rolling
    }
}

/// A Unicode `White_Space` character: what `char::is_whitespace` accepts.
pub open spec fn is_white_space(c: char) -> bool {
    let v = c as u32;
    ||| 0x9 <= v <= 0xD
    ||| v == 0x20
    ||| v == 0x85
    ||| v == 0xA0
    ||| v == 0x1680
    ||| 0x2000 <= v <= 0x200A
    ||| v == 0x2028
    ||| v == 0x2029
    ||| v == 0x202F
    ||| v == 0x205F
    ||| v == 0x3000
}

/// `s` without its leading whitespace.
pub open spec fn trim_start(s: Seq<char>) -> Seq<char>
    decreases s.len(),
{
    if s.len() > 0 && is_white_space(s[0]) {
        trim_start(s.drop_first())
    } else {
        s
    }
}

/// `s` without its trailing whitespace.
pub open spec fn trim_end(s: Seq<char>) -> Seq<char>
    decreases s.len(),
{
    if s.len() > 0 && is_white_space(s.last()) {
        trim_end(s.drop_last())
    } else {
        s
    }
}

/// What `str::trim` makes of a string: the string without its leading and
/// trailing whitespace.
pub open spec fn trimmed(s: Seq<char>) -> Seq<char> {
    trim_end(trim_start(s))
}

proof fn lemma_trim_start_front(s: Seq<char>)
    ensures
        trim_start(s).len() > 0 ==> !is_white_space(trim_start(s)[0]),
    decreases s.len(),
{
    if s.len() > 0 && is_white_space(s[0]) {
        lemma_trim_start_front(s.drop_first());
    }
}

proof fn lemma_trim_end_prefix(s: Seq<char>)
    ensures
        trim_end(s).len() <= s.len(),
        trim_end(s) == s.take(trim_end(s).len() as int),
        trim_end(s).len() > 0 ==> !is_white_space(trim_end(s).last()),
    decreases s.len(),
{
    if s.len() > 0 && is_white_space(s.last()) {
        lemma_trim_end_prefix(s.drop_last());
        assert(s.drop_last().take(trim_end(s).len() as int) =~= s.take(trim_end(s).len() as int));
    } else {
        assert(s.take(s.len() as int) =~= s);
    }
}

/// Trimming a trimmed string changes nothing.
pub proof fn lemma_trim_idempotent(s: Seq<char>)
    ensures
        trimmed(trimmed(s)) == trimmed(s),
{
    let a = trim_start(s);
    let t = trim_end(a);
    lemma_trim_start_front(s);
    lemma_trim_end_prefix(a);
    if t.len() > 0 {
        assert(t[0] == a[0]);
        assert(trim_start(t) == t);
        assert(trim_end(t) == t);
    } else {
        assert(trim_start(t) == t);
        assert(trim_end(t) == t);
    }
}

/// `str::trim` (std): the string without its leading and trailing
/// whitespace, whitespace being the Unicode `White_Space` characters.
#[verifier::external_body]
fn str_trim(s: &str) -> (r: String)
    ensures
        r@ == trimmed(s@),
{
    s.trim().to_string()
}

/// The debug overlay.
pub struct Debug {
    queue: Queue<String>,
    mode: DebugMode,
}

/// How many messages the overlay keeps at first.
pub open spec fn initial_capacity() -> usize {
    25
}

/// `after` is `before` with the message `text` queued, unless the overlay
/// is off or the message is empty.
pub open spec fn took(before: Debug, after: Debug, text: Seq<char>) -> bool {
    &&& after.mode() == before.mode()
    &&& if before.mode() == DebugMode::Off || text.len() == 0 {
        after.messages() == before.messages()
    } else {
        &&& after.messages() == (
            pushed(before.messages().0, before.messages().1, after.messages().0.last()),
            before.messages().1,
        )
        &&& before.messages().1 > 0 ==> after.messages().0.last()@ == text
    }
}

impl Debug {
    /// The messages kept, oldest first, and how many are kept at most.
    pub closed spec fn messages(&self) -> (Seq<String>, usize) {
        self.queue@
    }

    pub closed spec fn mode(&self) -> DebugMode {
        self.mode
    }

    /// An empty rolling overlay that keeps the last 25 messages.
    pub fn new() -> (d: Debug)
        ensures
            d.messages() == (Seq::<String>::empty(), initial_capacity()),
            d.mode() == DebugMode::Rolling,
    {
        Debug { queue: Queue::new(25), mode: DebugMode::Rolling }
    }

    /// Queue a message, trimmed; blank messages and messages sent while the
    /// overlay is off are dropped.
    pub fn push(&mut self, msg: &str)
        ensures
            took(*old(self), *final(self), trimmed(msg@)),
    {
        if let DebugMode::Off = self.mode {
            return;
        }
        let msg = str_trim(msg);
        if msg.as_str().is_empty() {
            return;
        }
        let ghost m = msg;
        self.queue.push(msg);
        proof {
            let items = old(self).queue@.0;
            let max = old(self).queue@.1;
            assert(max > 0 ==> pushed(items, max, m).last() == m);
            if max == 0 {
                assert(self.queue@.0 == items);
            }
        }
    }

    /// Keep messages in `mode` from now on.
    pub fn set_debug_mode(&mut self, mode: DebugMode)
        ensures
            final(self).mode() == mode,
            final(self).messages() == old(self).messages(),
    {
        self.mode = mode;
    }

    /// Does the overlay take messages?
    pub fn is_enabled(&self) -> (r: bool)
        ensures
            r == (self.mode() != DebugMode::Off),
    {
        match self.mode {
            DebugMode::Off => false,
            _ => true,
        }
    }

    /// Keep at most `size` messages from now on, dropping the oldest ones
    /// that no longer fit.
    pub fn resize(&mut self, size: usize)
        ensures
            final(self).mode() == old(self).mode(),
            final(self).messages() == (newest(old(self).messages().0, size), size),
    {
        self.queue.resize(size);
    }

    /// Take every queued message, oldest first.
    pub fn drain(&mut self) -> (r: Vec<String>)
        ensures
            r@ == old(self).messages().0,
            final(self).messages() == (Seq::<String>::empty(), old(self).messages().1),
            final(self).mode() == old(self).mode(),
    {
        self.queue.drain()
    }
}

/// Send a message to the overlay; a message that is blank once trimmed is ignored.
pub fn debug(overlay: &mut Debug, msg: &str)
    ensures
        trimmed(msg@).len() == 0 ==> *final(overlay) == *old(overlay),
        trimmed(msg@).len() != 0 ==> took(*old(overlay), *final(overlay), trimmed(msg@)),
{
    proof {
        lemma_trim_idempotent(msg@);
    }
    let trimmed_msg = str_trim(msg);
    if trimmed_msg.as_str().is_empty() {
        return;
    }
    overlay.push(trimmed_msg.as_str());
}

} // verus!
