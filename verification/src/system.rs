use vstd::prelude::*;
use global_hotkey::hotkey::HotKey;
use global_hotkey::GlobalHotKeyManager;
use crate::text::same_text;

pub mod registry;

pub use registry::{enabled as autostart_enabled, set as set_autostart};

verus! {

/// The name under which the program registers to start with the session.
pub const RUN_VALUE: &'static str = "TalkdedsecVisual";

/// The keys offered as the global toggle, by label.
pub const HOTKEYS: [&'static str; 7] = ["F6", "F7", "F8", "F9", "F10", "F11", "F12"];

/// Position of the default toggle key, F9, in `HOTKEYS`.
pub const DEFAULT_HOTKEY: usize = 3;

/// Whether `label` is one of the offered keys.
pub open spec fn offered(label: Seq<char>) -> bool {
    exists|i: int| 0 <= i < 7 && HOTKEYS@[i]@ == label
}

/// The offered labels are all different, and the default one is F9.
pub proof fn lemma_hotkey_labels()
    ensures
        forall|i: int, j: int| 0 <= i < 7 && 0 <= j < 7 && i != j ==> HOTKEYS@[i]@ != HOTKEYS@[j]@,
        HOTKEYS@[DEFAULT_HOTKEY as int]@ == "F9"@,
{
    reveal_strlit("F6");
    reveal_strlit("F7");
    reveal_strlit("F8");
    reveal_strlit("F9");
    reveal_strlit("F10");
    reveal_strlit("F11");
    reveal_strlit("F12");
    assert(HOTKEYS@[0]@[1] == '6');
    assert(HOTKEYS@[1]@[1] == '7');
    assert(HOTKEYS@[2]@[1] == '8');
    assert(HOTKEYS@[3]@[1] == '9');
    assert(HOTKEYS@[4]@[2] == '0');
    assert(HOTKEYS@[5]@[2] == '1');
    assert(HOTKEYS@[6]@[2] == '2');
    assert(HOTKEYS@[0]@.len() == 2 && HOTKEYS@[1]@.len() == 2 && HOTKEYS@[2]@.len() == 2 && HOTKEYS@[3]@.len() == 2);
    assert(HOTKEYS@[4]@.len() == 3 && HOTKEYS@[5]@.len() == 3 && HOTKEYS@[6]@.len() == 3);
}

/// The command the Run value holds: the program, quoted, started in the tray.
pub fn run_command(exe: &str) -> (command: String)
    ensures
        command@ == seq!['"'] + exe@ + "\" --tray"@,
{
    let mut command = "\"".to_owned();
    command.append(exe);
    command.append("\" --tray");
    proof {
        reveal_strlit("\"");
    }
    command
}

/// Position of `label` in `HOTKEYS`; a label that is not offered falls back
/// to the default key, F9.
pub fn hotkey_index(label: &str) -> (index: usize)
    ensures
        index < 7,
        offered(label@) ==> HOTKEYS@[index as int]@ == label@,
        !offered(label@) ==> index == DEFAULT_HOTKEY,
{
    let mut i: usize = 0;
    while i < 7
        invariant
            0 <= i <= 7,
            forall|j: int| 0 <= j < i ==> HOTKEYS@[j]@ != label@,
        decreases 7 - i,
    {
        if same_text(HOTKEYS[i], label) {
            return i;
        }
        i = i + 1;
    }
    DEFAULT_HOTKEY
}

#[verifier::external_type_specification]
#[verifier::external_body]
pub struct ExGlobalHotKeyManager(GlobalHotKeyManager);

/// The id that global_hotkey gives the key of the offered label `label`: a
/// key without modifiers has the position of its `Code` as id, and F6 to F12
/// stand at positions 165 to 171 of that enum.
pub open spec fn hotkey_id(label: Seq<char>) -> u32 {
    (165 + choose|i: int| 0 <= i < 7 && HOTKEYS@[i]@ == label) as u32
}

/// Each offered label has its own id: the label at position `i` of
/// `HOTKEYS` gets `165 + i`.
pub proof fn lemma_hotkey_ids()
    ensures
        forall|i: int| 0 <= i < 7 ==> #[trigger] hotkey_id(HOTKEYS@[i]@) == 165 + i,
{
    lemma_hotkey_labels();
    assert forall|i: int| 0 <= i < 7 implies #[trigger] hotkey_id(HOTKEYS@[i]@) == 165 + i by {
        let k = choose|k: int| 0 <= k < 7 && HOTKEYS@[k]@ == HOTKEYS@[i]@;
        assert(0 <= k < 7 && HOTKEYS@[k]@ == HOTKEYS@[i]@);
        assert(k == i);
    }
}

/// The ids of the keys that `manager` has registered: those whose
/// registration it answered with success and whose release has not been asked
/// of it since.
pub uninterp spec fn registered_ids(manager: GlobalHotKeyManager) -> Set<u32>;

/// The ids of the keys whose registration has been asked of `manager`, in the
/// order asked, each with whether it was granted.
pub uninterp spec fn requested_ids(manager: GlobalHotKeyManager) -> Seq<(u32, bool)>;

/// The ids in an answer to a registration: the granted key's, or none.
pub open spec fn granted_ids(granted: Option<u32>) -> Set<u32> {
    match granted {
        Some(id) => set![id],
        None => Set::empty(),
    }
}

/// Calls `GlobalHotKeyManager::new`, keeping the manager and dropping the
/// error. A new manager has registered no key and been asked for none.
/// Whether a manager can be made at all depends on the desktop session, so
/// it is not promised that one is returned.
#[verifier::external_body]
fn open_manager() -> (manager: Option<GlobalHotKeyManager>)
    ensures
        manager matches Some(m) ==> registered_ids(m) == Set::<u32>::empty()
            && requested_ids(m) == Seq::<(u32, bool)>::empty(),
{
    GlobalHotKeyManager::new().ok()
}

/// Parses the offered label `label` into a key with global_hotkey's
/// `HotKey::from_str` (which recognises F6 to F12, so the parse does not
/// fail) and asks `GlobalHotKeyManager::register` for it. The key has no
/// modifiers, so its id is `hotkey_id(label)`. On success the id is returned
/// and the manager holds it; when the system refuses the key (another program
/// holds it) nothing is returned and the manager holds what it held. Either
/// way the request is recorded with its answer. Whether the system grants the key is not
/// stated: it depends on the rest of the desktop.
#[verifier::external_body]
fn register(manager: &mut GlobalHotKeyManager, label: &str) -> (granted: Option<u32>)
    requires
        offered(label@),
    ensures
        requested_ids(*final(manager)) == requested_ids(*old(manager)).push((hotkey_id(label@), granted is Some)),
        granted matches Some(id) ==> id == hotkey_id(label@)
            && registered_ids(*final(manager)) == registered_ids(*old(manager)).insert(id),
        granted is None ==> registered_ids(*final(manager)) == registered_ids(*old(manager)),
{
    let key: HotKey = label.parse().unwrap();
    match manager.register(key) {
        Ok(()) => Some(key.id),
        Err(_) => None,
    }
}

/// Parses the offered label `label` into its key as `register` does and asks
/// `GlobalHotKeyManager::unregister` to release it, ignoring the answer: the
/// key's id is no longer among those the manager holds.
#[verifier::external_body]
fn unregister(manager: &mut GlobalHotKeyManager, label: &str)
    requires
        offered(label@),
    ensures
        registered_ids(*final(manager)) == registered_ids(*old(manager)).remove(hotkey_id(label@)),
        requested_ids(*final(manager)) == requested_ids(*old(manager)),
{
    let key: HotKey = label.parse().unwrap();
    let _ = manager.unregister(key);
}

/// The global toggle key: at most one key is held at a time.
pub struct Hotkeys {
    manager: GlobalHotKeyManager,
    /// The position in `HOTKEYS` of the key held, with its id.
    current: Option<(usize, u32)>,
}

impl Hotkeys {
    /// The id of the key currently held, if any.
    pub closed spec fn bound_id(&self) -> Option<u32> {
        match self.current {
            Some(k) => Some(k.1),
            None => None,
        }
    }

    /// The ids of the keys the manager holds.
    pub closed spec fn held(&self) -> Set<u32> {
        registered_ids(self.manager)
    }

    /// The ids of the keys asked for so far, in order, each with whether the
    /// system granted it.
    pub closed spec fn requested(&self) -> Seq<(u32, bool)> {
        requested_ids(self.manager)
    }

    /// The key recorded as held is an offered one, and it is exactly what the
    /// manager holds; with none recorded, the manager holds nothing.
    pub closed spec fn wf(&self) -> bool {
        match self.current {
            Some((i, id)) => i < 7 && id == hotkey_id(HOTKEYS@[i as int]@)
                && self.held() == set![id],
            None => self.held() == Set::<u32>::empty(),
        }
    }

    /// Connects to the desktop's hotkey service, holding no key yet.
    pub fn new() -> (hotkeys: Option<Hotkeys>)
        ensures
            hotkeys matches Some(h) ==> h.wf() && h.bound_id() is None
                && h.held() == Set::<u32>::empty() && h.requested() == Seq::<(u32, bool)>::empty(),
    {
        match open_manager() {
            Some(manager) => Some(Hotkeys { manager, current: None }),
            None => None,
        }
    }

    /// The id of the key currently held, which hotkey events carry.
    pub fn id(&self) -> (id: Option<u32>)
        ensures
            id == self.bound_id(),
    {
        match &self.current {
            Some(k) => Some(k.1),
            None => None,
        }
    }

    /// Records the system's answer `granted` to registering the key at
    /// position `index` of `HOTKEYS`: a granted key is now the one held; a
    /// refused one, held by another program, leaves no key held.
    pub fn finish_bind(&mut self, index: usize, granted: Option<u32>) -> (bound: bool)
        requires
            index < 7,
            granted matches Some(id) ==> id == hotkey_id(HOTKEYS@[index as int]@),
        ensures
            bound == granted is Some,
            final(self).bound_id() == granted,
            final(self).held() == old(self).held(),
            final(self).requested() == old(self).requested(),
            old(self).held() == granted_ids(granted) ==> final(self).wf(),
    {
        match granted {
            Some(id) => {
                self.current = Some((index, id));
                true
            },
            None => {
                self.current = None;
                false
            },
        }
    }

    /// Lets go of the key held so far and takes the key called `label`.
    /// A label that is not offered is refused without asking the system; an
    /// offered key is asked for once and may still be refused when another
    /// program holds it. Either way the old key has been released first.
    pub fn bind(&mut self, label: &str) -> (bound: bool)
        requires
            old(self).wf(),
        ensures
            final(self).wf(),
            bound ==> offered(label@),
            final(self).bound_id() == (if bound { Some(hotkey_id(label@)) } else { None }),
            final(self).held() == (if bound { set![hotkey_id(label@)] } else { Set::<u32>::empty() }),
            final(self).requested() == (if offered(label@) {
                old(self).requested().push((hotkey_id(label@), bound))
            } else {
                old(self).requested()
            }),
    {
        match self.current {
            Some((previous, id)) => {
                assert(offered(HOTKEYS@[previous as int]@));
                unregister(&mut self.manager, HOTKEYS[previous]);
                assert(set![id].remove(id) =~= Set::<u32>::empty());
            },
            None => {},
        }
        self.current = None;
        let index = hotkey_index(label);
        if !same_text(HOTKEYS[index], label) {
            return false;
        }
        assert(offered(label@));
        let granted = register(&mut self.manager, label);
        proof {
            if let Some(id) = granted {
                assert(Set::<u32>::empty().insert(id) =~= set![id]);
            }
        }
        self.finish_bind(index, granted)
    }
}

} // verus!
