//! Keyboard and window state that the event loop records and the render loop
//! reads, and the event loop's decision to keep running or exit.
use vstd::prelude::*;

verus! {

/// A keyboard key, as far as the viewer tells keys apart: the keys it binds,
/// and any other key by its code.
#[derive(Clone, Copy, Debug, PartialEq, Eq, Structural)]
pub enum Key {
    A,
    D,
    W,
    S,
    LShift,
    Space,
    Left,
    Right,
    Up,
    Down,
    T,
    H,
    Escape,
    Q,
    Other(u32),
}

/// Whether a key went down or came up.
#[derive(Clone, Copy, Debug, PartialEq, Eq, Structural)]
pub enum KeyState {
    Pressed,
    Released,
}

/// The keys held down, in the order they went down, each once.
pub struct PressedKeys {
    keys: Vec<Key>,
}

impl View for PressedKeys {
    type V = Seq<Key>;

    closed spec fn view(&self) -> Seq<Key> {
        self.keys@
    }
}

/// The held keys after `k` goes down: `k` is added at the end unless it is
/// already held.
pub open spec fn pressed(keys: Seq<Key>, k: Key) -> Seq<Key> {
    if keys.contains(k) {
        keys
    } else {
        keys.push(k)
    }
}

/// The held keys after `k` comes up: its entry is taken out, the others keep
/// their order; nothing changes when `k` is not held.
pub open spec fn released(keys: Seq<Key>, k: Key) -> Seq<Key> {
    if keys.contains(k) {
        keys.remove(keys.index_of(k))
    } else {
        keys
    }
}

/// The held keys after a key event.
pub open spec fn after_key_event(keys: Seq<Key>, k: Key, state: KeyState) -> Seq<Key> {
    match state {
        KeyState::Pressed => pressed(keys, k),
        KeyState::Released => released(keys, k),
    }
}

impl PressedKeys {
    /// The set of held keys is valid when no key is listed twice.
    pub open spec fn wf(&self) -> bool {
        self@.no_duplicates()
    }

    /// No key held.
    pub fn new() -> (keys: PressedKeys)
        ensures
            keys@ == Seq::<Key>::empty(),
            keys.wf(),
    {
        PressedKeys { keys: Vec::new() }
    }

    /// The number of keys held.
    pub fn len(&self) -> (n: usize)
        ensures
            n == self@.len(),
    {
        self.keys.len()
    }

    /// The `i`-th key that is held, in the order they went down.
    pub fn get(&self, i: usize) -> (k: Key)
        requires
            i < self@.len(),
        ensures
            k == self@[i as int],
    {
        self.keys[i]
    }

    /// Whether `k` is held.
    pub fn contains(&self, k: Key) -> (held: bool)
        ensures
            held == self@.contains(k),
    {
        self.position(k).is_some()
    }

    /// Where `k` stands in the list, if it is held.
    fn position(&self, k: Key) -> (pos: Option<usize>)
        ensures
            pos is None ==> !self@.contains(k),
            pos matches Some(p) ==> p < self@.len() && self@[p as int] == k && forall|j: int|
                0 <= j < p ==> self@[j] != k,
    {
        let mut i: usize = 0;
        while i < self.keys.len()
            invariant
                i <= self.keys@.len(),
                forall|j: int| 0 <= j < i ==> self.keys@[j] != k,
            decreases self.keys@.len() - i,
        {
            if self.keys[i] == k {
                return Some(i);
            }
            i = i + 1;
        }
        None
    }

    /// Record that `k` went down.
    pub fn press(&mut self, k: Key)
        requires
            old(self).wf(),
        ensures
            final(self)@ == pressed(old(self)@, k),
            final(self).wf(),
            old(self)@.contains(k) ==> final(self)@ == old(self)@,
            !old(self)@.contains(k) ==> {
                &&& final(self)@.len() == old(self)@.len() + 1
                &&& final(self)@[old(self)@.len() as int] == k
                &&& forall|a: int| 0 <= a < old(self)@.len() ==> final(self)@[a] == old(self)@[a]
            },
    {
        proof {
            lemma_press_appends(old(self)@, k);
        }
        if self.position(k).is_none() {
            self.keys.push(k);
        }
    }

    /// Record that `k` came up.
    pub fn release(&mut self, k: Key)
        requires
            old(self).wf(),
        ensures
            final(self)@ == released(old(self)@, k),
            final(self).wf(),
            !old(self)@.contains(k) ==> final(self)@ == old(self)@,
            forall|p: int|
                0 <= p < old(self)@.len() && old(self)@[p] == k ==> {
                    &&& final(self)@.len() == old(self)@.len() - 1
                    &&& forall|a: int| 0 <= a < p ==> final(self)@[a] == old(self)@[a]
                    &&& forall|a: int|
                        p <= a < old(self)@.len() - 1 ==> final(self)@[a] == old(self)@[a + 1]
                },
    {
        proof {
            lemma_release_keeps_order(old(self)@, k);
        }
        match self.position(k) {
            Some(p) => {
                proof {
                    assert(self@.index_of(k) == p as int);
                }
                self.keys.remove(p);
                proof {
                    let o = old(self)@;
                    assert forall|a: int, b: int|
                        0 <= a < b < self@.len() implies self@[a] != self@[b] by {
                        let oa = if a < p { a } else { a + 1 };
                        let ob = if b < p { b } else { b + 1 };
                        assert(self@[a] == o[oa]);
                        assert(self@[b] == o[ob]);
                    }
                }
            },
            None => {},
        }
    }

    /// Record a key event.
    pub fn apply(&mut self, k: Key, state: KeyState)
        requires
            old(self).wf(),
        ensures
            final(self)@ == after_key_event(old(self)@, k, state),
            final(self).wf(),
    {
        match state {
            KeyState::Pressed => self.press(k),
            KeyState::Released => self.release(k),
        }
    }
}

/// A key that goes down is held afterwards; every key stays listed once, and
/// whether any other key is held does not change.
pub proof fn lemma_press_holds(keys: Seq<Key>, k: Key)
    requires
        keys.no_duplicates(),
    ensures
        pressed(keys, k).contains(k),
        pressed(keys, k).no_duplicates(),
        forall|j: Key| j != k ==> pressed(keys, k).contains(j) == keys.contains(j),
{
    if !keys.contains(k) {
        assert(keys.push(k)[keys.len() as int] == k);
        assert forall|j: Key| j != k implies keys.push(k).contains(j) == keys.contains(j) by {
            if keys.push(k).contains(j) {
                let i = choose|i: int| 0 <= i < keys.push(k).len() && keys.push(k)[i] == j;
                assert(keys[i] == j);
            }
            if keys.contains(j) {
                let i = choose|i: int| 0 <= i < keys.len() && keys[i] == j;
                assert(keys.push(k)[i] == j);
            }
        }
    }
}

/// A key that comes up is no longer held; every key stays listed once, the
/// list is one shorter exactly when the key was held, and whether any other
/// key is held does not change.
pub proof fn lemma_release_lets_go(keys: Seq<Key>, k: Key)
    requires
        keys.no_duplicates(),
    ensures
        !released(keys, k).contains(k),
        released(keys, k).no_duplicates(),
        released(keys, k).len() == if keys.contains(k) {
            keys.len() - 1
        } else {
            keys.len() as int
        },
        forall|j: Key| j != k ==> released(keys, k).contains(j) == keys.contains(j),
{
    if keys.contains(k) {
        let p = keys.index_of(k);
        let r = keys.remove(p);
        assert(0 <= p < keys.len() && keys[p] == k);
        assert forall|a: int| 0 <= a < r.len() implies r[a] == keys[if a < p {
            a
        } else {
            a + 1
        }] by {}
        assert forall|a: int, b: int| 0 <= a < r.len() && 0 <= b < r.len() && a != b implies r[a]
            != r[b] by {
            let oa = if a < p { a } else { a + 1 };
            let ob = if b < p { b } else { b + 1 };
            assert(r[a] == keys[oa]);
            assert(r[b] == keys[ob]);
        }
        if r.contains(k) {
            let i = choose|i: int| 0 <= i < r.len() && r[i] == k;
            let oi = if i < p { i } else { i + 1 };
            assert(keys[oi] == k);
        }
        assert forall|j: Key| j != k implies r.contains(j) == keys.contains(j) by {
            if r.contains(j) {
                let i = choose|i: int| 0 <= i < r.len() && r[i] == j;
                let oi = if i < p { i } else { i + 1 };
                assert(keys[oi] == j);
            }
            if keys.contains(j) {
                let i = choose|i: int| 0 <= i < keys.len() && keys[i] == j;
                assert(i != p);
                let ri = if i < p { i } else { i - 1 };
                assert(r[ri] == j);
            }
        }
    }
}

/// Releasing a held key takes out its entry and keeps the other keys in the
/// order they went down: those before it stay where they are, those after it
/// move up by one. Releasing a key that is not held changes nothing.
pub proof fn lemma_release_keeps_order(keys: Seq<Key>, k: Key)
    requires
        keys.no_duplicates(),
    ensures
        !keys.contains(k) ==> released(keys, k) == keys,
        forall|p: int|
            0 <= p < keys.len() && keys[p] == k ==> {
                &&& released(keys, k).len() == keys.len() - 1
                &&& forall|a: int| 0 <= a < p ==> released(keys, k)[a] == keys[a]
                &&& forall|a: int| p <= a < keys.len() - 1 ==> released(keys, k)[a] == keys[a + 1]
            },
{
    assert forall|p: int| 0 <= p < keys.len() && keys[p] == k implies {
        &&& released(keys, k).len() == keys.len() - 1
        &&& forall|a: int| 0 <= a < p ==> released(keys, k)[a] == keys[a]
        &&& forall|a: int| p <= a < keys.len() - 1 ==> released(keys, k)[a] == keys[a + 1]
    } by {
        assert(keys.contains(k));
        let q = keys.index_of(k);
        assert(0 <= q < keys.len() && keys[q] == k);
        assert(q == p);
    }
}

/// Pressing a key that is not held puts it last and leaves the others where
/// they are; pressing a held key changes nothing.
pub proof fn lemma_press_appends(keys: Seq<Key>, k: Key)
    ensures
        keys.contains(k) ==> pressed(keys, k) == keys,
        !keys.contains(k) ==> {
            &&& pressed(keys, k).len() == keys.len() + 1
            &&& pressed(keys, k)[keys.len() as int] == k
            &&& forall|a: int| 0 <= a < keys.len() ==> pressed(keys, k)[a] == keys[a]
        },
{
}

/// Pressing and then releasing a key that was not held gives back the keys
/// held before.
pub proof fn lemma_press_release_roundtrip(keys: Seq<Key>, k: Key)
    requires
        keys.no_duplicates(),
        !keys.contains(k),
    ensures
        released(pressed(keys, k), k) == keys,
{
    let p = keys.push(k);
    assert(p[keys.len() as int] == k);
    assert(p.contains(k));
    assert(p.index_of(k) == keys.len()) by {
        let i = p.index_of(k);
        if i != keys.len() {
            assert(keys[i] == k);
        }
    }
    assert(p.remove(keys.len() as int) =~= keys);
}

/// A window event, as far as the event loop reacts to it.
#[derive(Clone, Copy, Debug, PartialEq, Eq, Structural)]
pub enum InputEvent {
    Resized { width: u32, height: u32 },
    CloseRequested,
    Keyboard { key: Key, state: KeyState },
    Other,
}

/// What the event loop does after an event: wait for the next one, or stop.
#[derive(Clone, Copy, Debug, PartialEq, Eq, Structural)]
pub enum Flow {
    Wait,
    Exit,
}

/// The event loop stops when the render thread has died, when the window is
/// asked to close, and on any event of the Escape or Q key, whether it went
/// down or came up.
pub open spec fn exit_requested(render_healthy: bool, event: InputEvent) -> bool {
    ||| !render_healthy
    ||| event is CloseRequested
    ||| event matches InputEvent::Keyboard { key, .. } && (key == Key::Escape || key == Key::Q)
}

/// Any event of Escape or Q stops the event loop, whether the key went down
/// or came up, as do a close request and a dead render thread. While the
/// render thread runs, resizes, other keys and other events keep it waiting.
pub proof fn lemma_exit_events(render_healthy: bool, state: KeyState, key: Key, width: u32, height: u32)
    ensures
        exit_requested(render_healthy, (InputEvent::Keyboard { key: Key::Q, state })),
        exit_requested(render_healthy, (InputEvent::Keyboard { key: Key::Escape, state })),
        exit_requested(render_healthy, InputEvent::CloseRequested),
        exit_requested(false, InputEvent::Other),
        key != Key::Q && key != Key::Escape ==> !exit_requested(
            true,
            (InputEvent::Keyboard { key, state }),
        ),
        !exit_requested(true, (InputEvent::Resized { width, height })),
        !exit_requested(true, InputEvent::Other),
{
}

/// What the event loop does after `event`, given whether the render thread
/// is still running.
pub fn control_flow(render_healthy: bool, event: &InputEvent) -> (flow: Flow)
    ensures
        flow == if exit_requested(render_healthy, *event) {
            Flow::Exit
        } else {
            Flow::Wait
        },
        forall|s: KeyState|
            *event == (InputEvent::Keyboard { key: Key::Q, state: s }) || *event
                == (InputEvent::Keyboard { key: Key::Escape, state: s }) ==> flow == Flow::Exit,
        *event == InputEvent::CloseRequested ==> flow == Flow::Exit,
        !render_healthy ==> flow == Flow::Exit,
{
    let mut flow = Flow::Wait;
    if !render_healthy {
        flow = Flow::Exit;
    }
    match event {
        InputEvent::CloseRequested => {
            flow = Flow::Exit;
        },
        InputEvent::Keyboard { key, .. } => {
            match key {
                Key::Escape => {
                    flow = Flow::Exit;
                },
                Key::Q => {
                    flow = Flow::Exit;
                },
                _ => {},
            }
        },
        _ => {},
    }
    flow
}

/// The window size the event loop last saw, and whether the render loop has
/// yet to adapt to it.
#[derive(Clone, Copy, Debug, PartialEq, Eq, Structural)]
pub struct WindowSize {
    pub width: u32,
    pub height: u32,
    pub resized: bool,
}

/// The state after the window took the given size.
pub open spec fn resized_to(size: WindowSize, width: u32, height: u32) -> WindowSize {
    WindowSize { width, height, resized: true }
}

/// The size the render loop has yet to adapt to, if any.
pub open spec fn pending_resize(size: WindowSize) -> Option<(u32, u32)> {
    if size.resized {
        Some((size.width, size.height))
    } else {
        None
    }
}

/// The state after the render loop adapted to the size.
pub open spec fn resize_handled(size: WindowSize) -> WindowSize {
    WindowSize { resized: false, ..size }
}

impl WindowSize {
    /// The size the window opens with; nothing to adapt to yet.
    pub fn new(width: u32, height: u32) -> (size: WindowSize)
        ensures
            size == (WindowSize { width, height, resized: false }),
    {
        WindowSize { width, height, resized: false }
    }

    /// Record that the window now has the given size.
    pub fn on_resized(&mut self, width: u32, height: u32)
        ensures
            *final(self) == resized_to(*old(self), width, height),
    {
        self.width = width;
        self.height = height;
        self.resized = true;
    }

    /// The size to adapt to, if it changed since the last call; the change
    /// counts as handled afterwards.
    pub fn take_resize(&mut self) -> (change: Option<(u32, u32)>)
        ensures
            change == pending_resize(*old(self)),
            *final(self) == resize_handled(*old(self)),
    {
        if self.resized {
            self.resized = false;
            Some((self.width, self.height))
        } else {
            None
        }
    }
}

/// After a resize the render loop is handed the new size exactly once: the
/// first `take_resize` gives it, the next gives nothing. Of two resizes before
/// the render loop looks, the later one counts.
pub proof fn lemma_resize_seen_once(size: WindowSize, width: u32, height: u32, w2: u32, h2: u32)
    ensures
        pending_resize(resized_to(size, width, height)) == Some((width, height)),
        pending_resize(resize_handled(resized_to(size, width, height))) == None::<(u32, u32)>,
        resize_handled(resized_to(size, width, height)).width == width,
        resize_handled(resized_to(size, width, height)).height == height,
        resized_to(resized_to(size, width, height), w2, h2) == resized_to(size, w2, h2),
        pending_resize(resize_handled(size)) == None::<(u32, u32)>,
{
}

/// The held keys after a sequence of key events, in order.
pub open spec fn after_key_events(keys: Seq<Key>, events: Seq<(Key, KeyState)>) -> Seq<Key>
    decreases events.len(),
{
    if events.len() == 0 {
        keys
    } else {
        after_key_event(
            after_key_events(keys, events.drop_last()),
            events.last().0,
            events.last().1,
        )
    }
}

/// The state in the last event of `k` among `events`, if there is one.
pub open spec fn last_state_of(events: Seq<(Key, KeyState)>, k: Key) -> Option<KeyState>
    decreases events.len(),
{
    if events.len() == 0 {
        None
    } else if events.last().0 == k {
        Some(events.last().1)
    } else {
        last_state_of(events.drop_last(), k)
    }
}

/// Through any sequence of key events, a key is held exactly when its last
/// event pressed it (or, without an event of it, when it was held before),
/// and no key is ever listed twice.
pub proof fn lemma_held_iff_last_pressed(keys: Seq<Key>, events: Seq<(Key, KeyState)>, k: Key)
    requires
        keys.no_duplicates(),
    ensures
        after_key_events(keys, events).no_duplicates(),
        after_key_events(keys, events).contains(k) == match last_state_of(events, k) {
            Some(state) => state == KeyState::Pressed,
            None => keys.contains(k),
        },
    decreases events.len(),
{
    if events.len() > 0 {
        let before = after_key_events(keys, events.drop_last());
        lemma_held_iff_last_pressed(keys, events.drop_last(), k);
        let (key, state) = events.last();
        match state {
            KeyState::Pressed => lemma_press_holds(before, key),
            KeyState::Released => lemma_release_lets_go(before, key),
        }
    }
}

/// Pressing a key twice is the same as pressing it once.
pub proof fn lemma_press_idempotent(keys: Seq<Key>, k: Key)
    ensures
        pressed(pressed(keys, k), k) == pressed(keys, k),
{
    if !keys.contains(k) {
        assert(keys.push(k)[keys.len() as int] == k);
    }
}

/// Releasing a key twice is the same as releasing it once.
pub proof fn lemma_release_idempotent(keys: Seq<Key>, k: Key)
    requires
        keys.no_duplicates(),
    ensures
        released(released(keys, k), k) == released(keys, k),
{
    lemma_release_lets_go(keys, k);
}

} // verus!
