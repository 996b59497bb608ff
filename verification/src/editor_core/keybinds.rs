//! Key bindings: the parsing of binding descriptions, and a registry that
//! resolves key presses into editor commands, possibly over several presses.
use crate::editor_core::command::EditorCommand;
use crate::editor_core::input_event::{Key, KeyModel, KeyPress, Mods, mods_with};
use crate::editor_core::lua_runtime::LuaRuntimeError;
use crate::editor_core::text_util::{chars_of, chars_are, char_to_string};
use crate::editor_core::user_mode::UserMode;
use vstd::prelude::*;

verus! {

/// The mode that a name (short or long form) stands for.
pub open spec fn mode_named(s: Seq<char>) -> Option<UserMode> {
    if s == "n"@ || s == "normal"@ {
        Some(UserMode::Normal)
    } else if s == "v"@ || s == "visual"@ {
        Some(UserMode::Visual)
    } else if s == "i"@ || s == "insert"@ {
        Some(UserMode::Insert)
    } else if s == "c"@ || s == "command"@ {
        Some(UserMode::Command)
    } else if s == "t"@ || s == "terminal"@ {
        Some(UserMode::Terminal)
    } else {
        None
    }
}

/// The command that a name stands for.
pub open spec fn command_named(s: Seq<char>) -> Option<EditorCommand> {
    if s == "undo"@ {
        Some(EditorCommand::Undo)
    } else if s == "redo"@ {
        Some(EditorCommand::Redo)
    } else if s == "workspace.open"@ {
        Some(EditorCommand::OpenWorkspace)
    } else if s == "workspace.quit"@ {
        Some(EditorCommand::QuitWorkspace)
    } else if s == "mode.normal"@ {
        Some(EditorCommand::EnterNormalMode)
    } else if s == "mode.insert"@ {
        Some(EditorCommand::EnterInsertMode)
    } else if s == "mode.cmdline"@ {
        Some(EditorCommand::EnterCmdlineMode)
    } else if s == "mode.terminal"@ {
        Some(EditorCommand::EnterTerminalMode)
    } else if s == "buffer.move_focus"@ {
        Some(EditorCommand::MoveFocus)
    } else if s == "buffer.open"@ {
        Some(EditorCommand::OpenBuffer)
    } else if s == "buffer.split"@ {
        Some(EditorCommand::SplitBuffer)
    } else if s == "buffer.write"@ {
        Some(EditorCommand::WriteBuffer)
    } else if s == "buffer.quit"@ {
        Some(EditorCommand::QuitBuffer)
    } else if s == "buffer.op.move_cursor"@ {
        Some(EditorCommand::MoveCursor)
    } else if s == "buffer.op.insert"@ {
        Some(EditorCommand::Insert)
    } else if s == "buffer.op.delete"@ {
        Some(EditorCommand::Delete)
    } else if s == "buffer.op.delete_selection"@ {
        Some(EditorCommand::DeleteSelection)
    } else {
        None
    }
}

/// The key that a name stands for: a single char is that character key.
pub open spec fn key_named(s: Seq<char>) -> Option<KeyModel> {
    if s.len() == 1 {
        Some(KeyModel::Character(s))
    } else if s == "Space"@ {
        Some(KeyModel::Space)
    } else if s == "Enter"@ {
        Some(KeyModel::Enter)
    } else if s == "Escape"@ {
        Some(KeyModel::Escape)
    } else if s == "Backspace"@ {
        Some(KeyModel::Backspace)
    } else if s == "Tab"@ {
        Some(KeyModel::Tab)
    } else if s == "Delete"@ {
        Some(KeyModel::Delete)
    } else if s == "F1"@ {
        Some(KeyModel::F(1))
    } else if s == "F2"@ {
        Some(KeyModel::F(2))
    } else if s == "F3"@ {
        Some(KeyModel::F(3))
    } else if s == "F4"@ {
        Some(KeyModel::F(4))
    } else if s == "F5"@ {
        Some(KeyModel::F(5))
    } else if s == "F6"@ {
        Some(KeyModel::F(6))
    } else if s == "F7"@ {
        Some(KeyModel::F(7))
    } else if s == "F8"@ {
        Some(KeyModel::F(8))
    } else if s == "F9"@ {
        Some(KeyModel::F(9))
    } else if s == "F10"@ {
        Some(KeyModel::F(10))
    } else if s == "F11"@ {
        Some(KeyModel::F(11))
    } else if s == "F12"@ {
        Some(KeyModel::F(12))
    } else if s == "Up"@ {
        Some(KeyModel::Up)
    } else if s == "Down"@ {
        Some(KeyModel::Down)
    } else if s == "Left"@ {
        Some(KeyModel::Left)
    } else if s == "Right"@ {
        Some(KeyModel::Right)
    } else {
        None
    }
}

/// The modifier bit that a name stands for.
pub open spec fn mod_named(s: Seq<char>) -> Option<u8> {
    if s == "SHIFT"@ {
        Some(Mods::SHIFT)
    } else if s == "CTRL"@ {
        Some(Mods::CTRL)
    } else if s == "ALT"@ {
        Some(Mods::ALT)
    } else if s == "SUPER"@ {
        Some(Mods::SUPER)
    } else {
        None
    }
}

/// `s` cut at every `-`, from left to right.
pub open spec fn split_dash(s: Seq<char>) -> Seq<Seq<char>>
    decreases s.len(),
{
    if s.len() == 0 {
        seq![Seq::<char>::empty()]
    } else {
        let prev = split_dash(s.drop_last());
        if s.last() == '-' {
            prev.push(Seq::<char>::empty())
        } else {
            prev.update(prev.len() - 1, prev.last().push(s.last()))
        }
    }
}

/// The modifiers named by `parts`, added in order, or `None` if a part names none.
pub open spec fn mods_named(parts: Seq<Seq<char>>) -> Option<u8>
    decreases parts.len(),
{
    if parts.len() == 0 {
        Some(0u8)
    } else {
        match (mods_named(parts.drop_last()), mod_named(parts.last())) {
            (Some(m), Some(b)) => Some(mods_with(m, b)),
            _ => None,
        }
    }
}

/// The key press that a token such as `CTRL-ALT-x` stands for: the last
/// dash-separated part names the key, the others name modifiers.
pub open spec fn token_named(s: Seq<char>) -> Option<(KeyModel, u8)> {
    let parts = split_dash(s);
    match (key_named(parts.last()), mods_named(parts.drop_last())) {
        (Some(k), Some(m)) => Some((k, m)),
        _ => None,
    }
}

/// The index of the first `>` at or after `i`, if any.
pub open spec fn close_from(s: Seq<char>, i: int) -> Option<int>
    decreases s.len() - i,
{
    if i < 0 || i >= s.len() {
        None
    } else if s[i] == '>' {
        Some(i)
    } else {
        close_from(s, i + 1)
    }
}

pub proof fn lemma_close_from_bounds(s: Seq<char>, i: int)
    ensures
        close_from(s, i) matches Some(j) ==> i <= j < s.len() && s[j] == '>' && forall|k: int|
            i <= k < j ==> s[k] != '>',
    decreases s.len() - i,
{
    if 0 <= i < s.len() && s[i] != '>' {
        lemma_close_from_bounds(s, i + 1);
    }
}

/// The presses described by `s` from index `i` on: a plain char stands for
/// itself, and `<token>` for the press the token names.
pub open spec fn presses_from(s: Seq<char>, i: int) -> Option<Seq<(KeyModel, u8)>>
    decreases s.len() - i,
{
    if i < 0 || i >= s.len() {
        Some(Seq::empty())
    } else if s[i] != '<' {
        match presses_from(s, i + 1) {
            Some(rest) => Some(seq![(KeyModel::Character(seq![s[i]]), 0u8)] + rest),
            None => None,
        }
    } else {
        match close_from(s, i + 1) {
            None => None,
            Some(j) => {
                proof {
                    lemma_close_from_bounds(s, i + 1);
                }
                match token_named(s.subrange(i + 1, j)) {
                    None => None,
                    Some(kp) => match presses_from(s, j + 1) {
                        Some(rest) => Some(seq![kp] + rest),
                        None => None,
                    },
                }
            },
        }
    }
}

/// The key presses of a binding's description.
pub open spec fn sequence_named(s: Seq<char>) -> Option<Seq<(KeyModel, u8)>> {
    if s.len() == 0 {
        None
    } else {
        presses_from(s, 0)
    }
}

/// The views of a sequence of key presses.
pub open spec fn presses_view(ks: Seq<KeyPress>) -> Seq<(KeyModel, u8)> {
    ks.map_values(|k: KeyPress| k@)
}

pub proof fn lemma_close_at(s: Seq<char>, a: int, j: int)
    requires
        0 <= a <= j < s.len(),
        s[j] == '>',
        forall|k: int| a <= k < j ==> s[k] != '>',
    ensures
        close_from(s, a) == Some(j),
    decreases j - a,
{
    if a < j {
        lemma_close_at(s, a + 1, j);
    }
}

pub proof fn lemma_close_none(s: Seq<char>, a: int)
    requires
        0 <= a,
        forall|k: int| a <= k < s.len() ==> s[k] != '>',
    ensures
        close_from(s, a) is None,
    decreases s.len() - a,
{
    if a < s.len() {
        lemma_close_none(s, a + 1);
    }
}

pub proof fn lemma_split_dash_nonempty(s: Seq<char>)
    ensures
        split_dash(s).len() > 0,
    decreases s.len(),
{
    if s.len() > 0 {
        lemma_split_dash_nonempty(s.drop_last());
    }
}

/// Once a part names no modifier, so does every longer run of parts.
pub proof fn lemma_mods_named_prefix(parts: Seq<Seq<char>>, n: int)
    requires
        0 < n <= parts.len(),
        mod_named(parts[n - 1]) is None,
    ensures
        mods_named(parts) is None,
    decreases parts.len(),
{
    if parts.len() > n {
        lemma_mods_named_prefix(parts.drop_last(), n);
    } else {
        assert(parts.last() == parts[n - 1]);
    }
}

/// How long, in milliseconds, a partial key sequence waits for its next key.
pub const TIMEOUT_MILLIS: u64 = 500;

/// A moment on the editor's monotonic clock, in milliseconds.
#[derive(Debug, Clone, Copy, PartialEq, Eq)]
pub struct Timestamp {
    pub millis: u64,
}

/// What a key press amounts to.
#[derive(Debug, Clone, Copy, PartialEq, Eq)]
pub enum KeybindResolveResult {
    /// The keys so far are bound to this command, and nothing longer starts with them.
    Match(EditorCommand),
    /// The keys so far are bound to this command, and longer bindings start with them.
    MatchOrPending(EditorCommand),
    /// The keys so far are a node of the trie with no command and nothing
    /// below it; they are kept, until the deadline, to be continued.
    Pending,
    /// No node has the keys so far, or their node has no command but longer
    /// bindings below it (then nothing is kept pending).
    NoMatch,
}

/// A node of a mode's binding trie, stored with its path of keys from the root.
struct TrieNode {
    mode: UserMode,
    path: Vec<KeyPress>,
    cmd: Option<EditorCommand>,
}

/// A sequence of keys waiting for more, the command it is bound to if any,
/// and the moment past which it gives up.
struct PendingState {
    cmd: Option<EditorCommand>,
    sequence: Vec<KeyPress>,
    deadline: Timestamp,
}

/// A trie path: a mode and the key presses from its root.
pub type TriePath = (UserMode, Seq<(KeyModel, u8)>);

pub struct PendingModel {
    pub cmd: Option<EditorCommand>,
    pub sequence: Seq<(KeyModel, u8)>,
    pub deadline: u64,
}

/// The registry as mathematical values: the nodes of the binding tries, each
/// with its command if bound, and the pending sequence.
pub struct KeybindView {
    pub trie: Map<TriePath, Option<EditorCommand>>,
    pub pending: Option<PendingModel>,
}

spec fn node_path(n: TrieNode) -> TriePath {
    (n.mode, presses_view(n.path@))
}

spec fn pending_model(p: PendingState) -> PendingModel {
    PendingModel { cmd: p.cmd, sequence: presses_view(p.sequence@), deadline: p.deadline.millis }
}

/// The nodes stored in `binds`, by path.
spec fn trie_of(binds: Seq<TrieNode>) -> Map<TriePath, Option<EditorCommand>> {
    Map::new(
        |p: TriePath| exists|i: int| 0 <= i < binds.len() && node_path(binds[i]) == p,
        |p: TriePath| binds[index_of_path(binds, p)].cmd,
    )
}

spec fn paths_unique(binds: Seq<TrieNode>) -> bool {
    forall|i: int, j: int|
        0 <= i < binds.len() && 0 <= j < binds.len() && i != j ==> node_path(binds[i]) != node_path(
            binds[j],
        )
}

proof fn lemma_trie_at(binds: Seq<TrieNode>, i: int)
    requires
        paths_unique(binds),
        0 <= i < binds.len(),
    ensures
        trie_of(binds).contains_key(node_path(binds[i])),
        trie_of(binds)[node_path(binds[i])] == binds[i].cmd,
{
    let p = node_path(binds[i]);
    assert(trie_of(binds).contains_key(p));
    let j = index_of_path(binds, p);
    assert(0 <= j < binds.len() && node_path(binds[j]) == p);
}

proof fn lemma_trie_push(binds: Seq<TrieNode>, n: TrieNode)
    requires
        paths_unique(binds),
        !trie_of(binds).contains_key(node_path(n)),
    ensures
        paths_unique(binds.push(n)),
        trie_of(binds.push(n)) == trie_of(binds).insert(node_path(n), n.cmd),
{
    let b2 = binds.push(n);
    assert forall|i: int, j: int|
        0 <= i < b2.len() && 0 <= j < b2.len() && i != j implies node_path(b2[i]) != node_path(
        b2[j],
    ) by {
        if i == binds.len() {
            assert(!trie_of(binds).contains_key(node_path(b2[j])) ==> false) by {
                assert(node_path(binds[j]) == node_path(b2[j]));
            }
        }
        if j == binds.len() {
            assert(node_path(binds[i]) == node_path(b2[i]));
        }
    }
    assert forall|p: TriePath| #[trigger] trie_of(b2).contains_key(p) implies trie_of(b2)[p] == trie_of(binds).insert(node_path(n), n.cmd)[p] by {
        let k = index_of_path(b2, p);
        lemma_trie_at(b2, k);
        if p != node_path(n) {
            assert(k < binds.len());
            assert(binds[k] == b2[k]);
            lemma_trie_at(binds, k);
        }
    }
    assert forall|p: TriePath| #[trigger] trie_of(b2).contains_key(p) <==> trie_of(binds).insert(node_path(n), n.cmd).contains_key(p) by {
        assert(node_path(b2[binds.len() as int]) == node_path(n));
        if trie_of(binds).contains_key(p) {
            let k = choose|i: int| 0 <= i < binds.len() && node_path(binds[i]) == p;
            assert(node_path(b2[k]) == p);
        }
        if trie_of(b2).contains_key(p) && p != node_path(n) {
            let k = choose|i: int| 0 <= i < b2.len() && node_path(b2[i]) == p;
            assert(k < binds.len());
            assert(node_path(binds[k]) == p);
        }
    }
    assert(trie_of(b2) =~= trie_of(binds).insert(node_path(n), n.cmd));
}

proof fn lemma_trie_set(binds: Seq<TrieNode>, i: int, n: TrieNode)
    requires
        paths_unique(binds),
        0 <= i < binds.len(),
        node_path(n) == node_path(binds[i]),
    ensures
        paths_unique(binds.update(i, n)),
        trie_of(binds.update(i, n)) == trie_of(binds).insert(node_path(n), n.cmd),
{
    let b2 = binds.update(i, n);
    assert forall|a: int, b: int|
        0 <= a < b2.len() && 0 <= b < b2.len() && a != b implies node_path(b2[a]) != node_path(
        b2[b],
    ) by {
        assert(node_path(b2[a]) == node_path(binds[a]));
        assert(node_path(b2[b]) == node_path(binds[b]));
    }
    assert forall|p: TriePath| #[trigger] trie_of(b2).contains_key(p) <==> trie_of(binds).contains_key(p) by {
        if trie_of(binds).contains_key(p) {
            let k = choose|j: int| 0 <= j < binds.len() && node_path(binds[j]) == p;
            assert(node_path(b2[k]) == p);
        }
        if trie_of(b2).contains_key(p) {
            let k = choose|j: int| 0 <= j < b2.len() && node_path(b2[j]) == p;
            assert(node_path(binds[k]) == p);
        }
    }
    assert forall|p: TriePath| #[trigger] trie_of(b2).contains_key(p) implies trie_of(b2)[p] == trie_of(binds).insert(node_path(n), n.cmd)[p] by {
        let k = index_of_path(b2, p);
        lemma_trie_at(b2, k);
        if k != i {
            assert(binds[k] == b2[k]);
            lemma_trie_at(binds, k);
        }
    }
    assert(trie_of(b2) =~= trie_of(binds).insert(node_path(n), n.cmd));
}

/// The index of the node with path `p`.
spec fn index_of_path(binds: Seq<TrieNode>, p: TriePath) -> int {
    choose|i: int| 0 <= i < binds.len() && node_path(binds[i]) == p
}

/// The trie holds every prefix of each of its paths.
pub open spec fn prefix_closed(trie: Map<TriePath, Option<EditorCommand>>) -> bool {
    forall|p: TriePath, n: int|
        #![trigger trie.contains_key(p), p.1.take(n)]
        trie.contains_key(p) && 0 <= n <= p.1.len() ==> trie.contains_key((p.0, p.1.take(n)))
}

/// The trie after binding `s` in `mode` to `cmd`: every prefix of `s`
/// becomes a node (unbound if new), and `s` is bound to `cmd`.
pub open spec fn registered(
    trie: Map<TriePath, Option<EditorCommand>>,
    mode: UserMode,
    s: Seq<(KeyModel, u8)>,
    cmd: EditorCommand,
) -> Map<TriePath, Option<EditorCommand>> {
    Map::new(
        |p: TriePath| trie.contains_key(p) || (p.0 == mode && p.1.len() <= s.len() && p.1 == s.take(p.1.len() as int)),
        |p: TriePath|
            if p == (mode, s) {
                Some(cmd)
            } else if trie.contains_key(p) {
                trie[p]
            } else {
                None
            },
    )
}

/// `trie` with a node for every prefix of `s` no longer than `n` (new ones unbound).
pub open spec fn with_prefixes(
    trie: Map<TriePath, Option<EditorCommand>>,
    mode: UserMode,
    s: Seq<(KeyModel, u8)>,
    n: int,
) -> Map<TriePath, Option<EditorCommand>> {
    Map::new(
        |p: TriePath| trie.contains_key(p) || (p.0 == mode && p.1.len() <= n && p.1 == s.take(p.1.len() as int)),
        |p: TriePath| if trie.contains_key(p) { trie[p] } else { None },
    )
}

/// The keys that a press continues: the pending ones, if any.
pub open spec fn continued(pending: Option<PendingModel>, key: (KeyModel, u8)) -> Seq<(KeyModel, u8)> {
    match pending {
        Some(p) => p.sequence.push(key),
        None => seq![key],
    }
}

/// Some node of `mode`'s trie extends `s` by one key.
pub open spec fn has_child(trie: Map<TriePath, Option<EditorCommand>>, mode: UserMode, s: Seq<(KeyModel, u8)>) -> bool {
    exists|k: (KeyModel, u8)| #[trigger] trie.contains_key((mode, s.push(k)))
}

/// The outcome of pressing `key` in `mode` at `now`, and the pending
/// sequence afterwards. Without a node for the keys, nothing changes.
pub open spec fn resolve_step(
    view: KeybindView,
    mode: UserMode,
    key: (KeyModel, u8),
    now: u64,
) -> (KeybindResolveResult, Option<PendingModel>) {
    let s = continued(view.pending, key);
    if !view.trie.contains_key((mode, s)) {
        (KeybindResolveResult::NoMatch, view.pending)
    } else {
        let leaf = !has_child(view.trie, mode, s);
        let deadline = (now + TIMEOUT_MILLIS) as u64;
        match view.trie[(mode, s)] {
            Some(cmd) => if leaf {
                (KeybindResolveResult::Match(cmd), None)
            } else {
                (
                    KeybindResolveResult::MatchOrPending(cmd),
                    Some(PendingModel { cmd: Some(cmd), sequence: s, deadline }),
                )
            },
            None => if leaf {
                (
                    KeybindResolveResult::Pending,
                    Some(PendingModel { cmd: None, sequence: s, deadline }),
                )
            } else {
                (KeybindResolveResult::NoMatch, None)
            },
        }
    }
}

/// Key bindings per mode, kept as a trie of key presses, and the sequence
/// of presses that waits for more keys.
pub struct KeybindRegistry {
    binds: Vec<TrieNode>,
    pending: Option<PendingState>,
}

/// Whether two press sequences are the same.
fn same_presses(a: &Vec<KeyPress>, b: &Vec<KeyPress>) -> (r: bool)
    ensures
        r == (presses_view(a@) == presses_view(b@)),
{
    if a.len() != b.len() {
        assert(presses_view(a@).len() != presses_view(b@).len());
        return false;
    }
    for i in 0..a.len()
        invariant
            a.len() == b.len(),
            forall|j: int| 0 <= j < i ==> a@[j]@ == b@[j]@,
    {
        if !a[i].same_as(&b[i]) {
            assert(presses_view(a@)[i as int] != presses_view(b@)[i as int]);
            return false;
        }
    }
    assert(presses_view(a@) =~= presses_view(b@));
    true
}

/// Whether `long` is `short` followed by exactly one more press.
fn extends_by_one(long: &Vec<KeyPress>, short: &Vec<KeyPress>) -> (r: bool)
    ensures
        r == (long.len() == short.len() + 1 && presses_view(long@).take(short.len() as int)
            == presses_view(short@)),
{
    if long.len() == 0 || long.len() - 1 != short.len() {
        return false;
    }
    for i in 0..short.len()
        invariant
            long.len() == short.len() + 1,
            forall|j: int| 0 <= j < i ==> long@[j]@ == short@[j]@,
    {
        if !long[i].same_as(&short[i]) {
            assert(presses_view(long@).take(short.len() as int)[i as int] != presses_view(short@)[i as int]);
            return false;
        }
    }
    assert(presses_view(long@).take(short.len() as int) =~= presses_view(short@));
    true
}

/// A copy of the first `n` presses of `s`.
fn copy_presses(s: &[KeyPress], n: usize) -> (r: Vec<KeyPress>)
    requires
        n <= s@.len(),
    ensures
        presses_view(r@) == presses_view(s@).take(n as int),
{
    let mut r: Vec<KeyPress> = Vec::new();
    for i in 0..n
        invariant
            n <= s@.len(),
            r@.len() == i,
            presses_view(r@) == presses_view(s@).take(i as int),
    {
        r.push(s[i].duplicate());
        assert(presses_view(r@) =~= presses_view(s@).take(i + 1));
    }
    r
}

impl View for KeybindRegistry {
    type V = KeybindView;

    closed spec fn view(&self) -> KeybindView {
        KeybindView {
            trie: trie_of(self.binds@),
            pending: match self.pending {
                Some(p) => Some(pending_model(p)),
                None => None,
            },
        }
    }
}

impl KeybindRegistry {
    /// Reads a mode name, short (`n`) or long (`normal`).
    pub fn parse_mode(input: &str) -> (r: Result<UserMode, LuaRuntimeError>)
        ensures
            match r {
                Ok(m) => mode_named(input@) == Some(m),
                Err(e) => mode_named(input@) is None && e matches LuaRuntimeError::InvalidArg(0),
            },
    {
        if input.is_empty() {
            proof {
                reveal_strlit("n");
    assert("n"@.len() == 1);
                reveal_strlit("normal");
    assert("normal"@.len() == 6);
                reveal_strlit("v");
    assert("v"@.len() == 1);
                reveal_strlit("visual");
    assert("visual"@.len() == 6);
                reveal_strlit("i");
    assert("i"@.len() == 1);
                reveal_strlit("insert");
    assert("insert"@.len() == 6);
                reveal_strlit("c");
    assert("c"@.len() == 1);
                reveal_strlit("command");
    assert("command"@.len() == 7);
                reveal_strlit("t");
    assert("t"@.len() == 1);
                reveal_strlit("terminal");
    assert("terminal"@.len() == 8);
            }
            return Err(LuaRuntimeError::InvalidArg(0));
        }
        let cs = chars_of(input);
        // use short or long form
        if chars_are(&cs, "n") || chars_are(&cs, "normal") {
            Ok(UserMode::Normal)
        } else if chars_are(&cs, "v") || chars_are(&cs, "visual") {
            Ok(UserMode::Visual)
        } else if chars_are(&cs, "i") || chars_are(&cs, "insert") {
            Ok(UserMode::Insert)
        } else if chars_are(&cs, "c") || chars_are(&cs, "command") {
            Ok(UserMode::Command)
        } else if chars_are(&cs, "t") || chars_are(&cs, "terminal") {
            Ok(UserMode::Terminal)
        } else {
            Err(LuaRuntimeError::InvalidArg(0))
        }
    }

    /// Reads a command name, such as `buffer.split`.
    pub fn parse_command(input: &str) -> (r: Result<EditorCommand, LuaRuntimeError>)
        ensures
            match r {
                Ok(c) => command_named(input@) == Some(c),
                Err(e) => command_named(input@) is None && e matches LuaRuntimeError::InvalidArg(2),
            },
    {
        if input.is_empty() {
            proof {
                reveal_strlit("undo");
    assert("undo"@.len() == 4);
                reveal_strlit("redo");
    assert("redo"@.len() == 4);
                reveal_strlit("workspace.open");
    assert("workspace.open"@.len() == 14);
                reveal_strlit("workspace.quit");
    assert("workspace.quit"@.len() == 14);
                reveal_strlit("mode.normal");
    assert("mode.normal"@.len() == 11);
                reveal_strlit("mode.insert");
    assert("mode.insert"@.len() == 11);
                reveal_strlit("mode.cmdline");
    assert("mode.cmdline"@.len() == 12);
                reveal_strlit("mode.terminal");
    assert("mode.terminal"@.len() == 13);
                reveal_strlit("buffer.move_focus");
    assert("buffer.move_focus"@.len() == 17);
                reveal_strlit("buffer.open");
    assert("buffer.open"@.len() == 11);
                reveal_strlit("buffer.split");
    assert("buffer.split"@.len() == 12);
                reveal_strlit("buffer.write");
    assert("buffer.write"@.len() == 12);
                reveal_strlit("buffer.quit");
    assert("buffer.quit"@.len() == 11);
                reveal_strlit("buffer.op.move_cursor");
    assert("buffer.op.move_cursor"@.len() == 21);
                reveal_strlit("buffer.op.insert");
    assert("buffer.op.insert"@.len() == 16);
                reveal_strlit("buffer.op.delete");
    assert("buffer.op.delete"@.len() == 16);
                reveal_strlit("buffer.op.delete_selection");
    assert("buffer.op.delete_selection"@.len() == 26);
            }
            return Err(LuaRuntimeError::InvalidArg(2));
        }
        let cs = chars_of(input);
        // global
        if chars_are(&cs, "undo") {
            Ok(EditorCommand::Undo)
        } else if chars_are(&cs, "redo") {
            Ok(EditorCommand::Redo)
        // workspaces
        } else if chars_are(&cs, "workspace.open") {
            Ok(EditorCommand::OpenWorkspace)
        } else if chars_are(&cs, "workspace.quit") {
            Ok(EditorCommand::QuitWorkspace)
        // modes
        } else if chars_are(&cs, "mode.normal") {
            Ok(EditorCommand::EnterNormalMode)
        } else if chars_are(&cs, "mode.insert") {
            Ok(EditorCommand::EnterInsertMode)
        } else if chars_are(&cs, "mode.cmdline") {
            Ok(EditorCommand::EnterCmdlineMode)
        } else if chars_are(&cs, "mode.terminal") {
            Ok(EditorCommand::EnterTerminalMode)
        // buffers
        } else if chars_are(&cs, "buffer.move_focus") {
            Ok(EditorCommand::MoveFocus)
        } else if chars_are(&cs, "buffer.open") {
            Ok(EditorCommand::OpenBuffer)
        } else if chars_are(&cs, "buffer.split") {
            Ok(EditorCommand::SplitBuffer)
        } else if chars_are(&cs, "buffer.write") {
            Ok(EditorCommand::WriteBuffer)
        } else if chars_are(&cs, "buffer.quit") {
            Ok(EditorCommand::QuitBuffer)
        // buffer ops
        } else if chars_are(&cs, "buffer.op.move_cursor") {
            Ok(EditorCommand::MoveCursor)
        } else if chars_are(&cs, "buffer.op.insert") {
            Ok(EditorCommand::Insert)
        } else if chars_are(&cs, "buffer.op.delete") {
            Ok(EditorCommand::Delete)
        } else if chars_are(&cs, "buffer.op.delete_selection") {
            Ok(EditorCommand::DeleteSelection)
        } else {
            Err(LuaRuntimeError::InvalidArg(2))
        }
    }

    /// Reads a key name: a single char, or a named key such as `Enter` or `F5`.
    pub fn parse_key(input: &str) -> (r: Result<Key, LuaRuntimeError>)
        ensures
            match r {
                Ok(k) => key_named(input@) == Some(k@),
                Err(e) => key_named(input@) is None && e matches LuaRuntimeError::InvalidArg(1),
            },
    {
        let cs = chars_of(input);
        Self::parse_key_chars(&cs)
    }

    fn parse_key_chars(cs: &Vec<char>) -> (r: Result<Key, LuaRuntimeError>)
        ensures
            match r {
                Ok(k) => key_named(cs@) == Some(k@),
                Err(e) => key_named(cs@) is None && e matches LuaRuntimeError::InvalidArg(1),
            },
    {
        // if a single char treat as char
        if cs.len() == 1 {
            let text = char_to_string(cs[0]);
            assert(cs@ =~= seq![cs@[0]]);
            return Ok(Key::Character(text));
        }
        if chars_are(cs, "Space") {
            Ok(Key::Space)
        } else if chars_are(cs, "Enter") {
            Ok(Key::Enter)
        } else if chars_are(cs, "Escape") {
            Ok(Key::Escape)
        } else if chars_are(cs, "Backspace") {
            Ok(Key::Backspace)
        } else if chars_are(cs, "Tab") {
            Ok(Key::Tab)
        } else if chars_are(cs, "Delete") {
            Ok(Key::Delete)
        } else if chars_are(cs, "F1") {
            Ok(Key::F(1))
        } else if chars_are(cs, "F2") {
            Ok(Key::F(2))
        } else if chars_are(cs, "F3") {
            Ok(Key::F(3))
        } else if chars_are(cs, "F4") {
            Ok(Key::F(4))
        } else if chars_are(cs, "F5") {
            Ok(Key::F(5))
        } else if chars_are(cs, "F6") {
            Ok(Key::F(6))
        } else if chars_are(cs, "F7") {
            Ok(Key::F(7))
        } else if chars_are(cs, "F8") {
            Ok(Key::F(8))
        } else if chars_are(cs, "F9") {
            Ok(Key::F(9))
        } else if chars_are(cs, "F10") {
            Ok(Key::F(10))
        } else if chars_are(cs, "F11") {
            Ok(Key::F(11))
        } else if chars_are(cs, "F12") {
            Ok(Key::F(12))
        } else if chars_are(cs, "Up") {
            Ok(Key::Up)
        } else if chars_are(cs, "Down") {
            Ok(Key::Down)
        } else if chars_are(cs, "Left") {
            Ok(Key::Left)
        } else if chars_are(cs, "Right") {
            Ok(Key::Right)
        } else {
            Err(LuaRuntimeError::InvalidArg(1))
        }
    }

    /// `cs` cut at every `-`.
    fn split_dash_chars(cs: &Vec<char>) -> (parts: Vec<Vec<char>>)
        ensures
            parts@.map_values(|p: Vec<char>| p@) == split_dash(cs@),
    {
        let mut done: Vec<Vec<char>> = Vec::new();
        let mut current: Vec<char> = Vec::new();
        for i in 0..cs.len()
            invariant
                done@.map_values(|p: Vec<char>| p@).push(current@) == split_dash(
                    cs@.subrange(0, i as int),
                ),
        {
            let c = cs[i];
            proof {
                let pre = cs@.subrange(0, i + 1);
                assert(pre.drop_last() =~= cs@.subrange(0, i as int));
                assert(pre.last() == c);
            }
            if c == '-' {
                let ghost before = done@.map_values(|p: Vec<char>| p@).push(current@);
                done.push(current);
                current = Vec::new();
                assert(done@.map_values(|p: Vec<char>| p@).push(current@) =~= before.push(
                    Seq::<char>::empty(),
                ));
            } else {
                let ghost before = done@.map_values(|p: Vec<char>| p@).push(current@);
                current.push(c);
                assert(done@.map_values(|p: Vec<char>| p@).push(current@) =~= before.update(
                    before.len() - 1,
                    before.last().push(c),
                ));
            }
        }
        assert(cs@.subrange(0, cs.len() as int) =~= cs@);
        let ghost before = done@.map_values(|p: Vec<char>| p@).push(current@);
        done.push(current);
        assert(done@.map_values(|p: Vec<char>| p@) =~= before);
        done
    }

    /// Reads a token such as `CTRL-ALT-x`: modifiers, then a key, separated by dashes.
    pub fn parse_token(input: &str) -> (r: Result<KeyPress, LuaRuntimeError>)
        ensures
            match r {
                Ok(kp) => token_named(input@) == Some(kp@),
                Err(e) => token_named(input@) is None && e matches LuaRuntimeError::InvalidArg(1),
            },
    {
        let cs = chars_of(input);
        Self::parse_token_chars(&cs)
    }

    fn parse_token_chars(cs: &Vec<char>) -> (r: Result<KeyPress, LuaRuntimeError>)
        ensures
            match r {
                Ok(kp) => token_named(cs@) == Some(kp@),
                Err(e) => token_named(cs@) is None && e matches LuaRuntimeError::InvalidArg(1),
            },
    {
        let mut parts = Self::split_dash_chars(cs);
        let ghost all = split_dash(cs@);
        proof {
            lemma_split_dash_nonempty(cs@);
        }
        // fetch key
        let key = match parts.pop() {
            Some(key) => Self::parse_key_chars(&key)?,
            None => return Err(LuaRuntimeError::InvalidArg(1)),
        };
        proof {
            assert(parts@.map_values(|p: Vec<char>| p@) =~= all.drop_last());
        }
        // fetch mods from spare parts
        // if no mods, key pressed is assigned an empty Mods
        let mut mods = Mods::empty();
        for i in 0..parts.len()
            invariant
                parts@.map_values(|p: Vec<char>| p@) == all.drop_last(),
                all == split_dash(cs@),
                key_named(all.last()) == Some(key@),
                mods_named(all.drop_last().subrange(0, i as int)) == Some(mods@),
        {
            let part = &parts[i];
            proof {
                let pre = all.drop_last().subrange(0, i + 1);
                assert(pre.drop_last() =~= all.drop_last().subrange(0, i as int));
                assert(pre.last() == part@);
            }
            if chars_are(part, "SHIFT") {
                mods.with(Mods::SHIFT);
            } else if chars_are(part, "CTRL") {
                mods.with(Mods::CTRL);
            } else if chars_are(part, "ALT") {
                mods.with(Mods::ALT);
            } else if chars_are(part, "SUPER") {
                mods.with(Mods::SUPER);
            } else {
                proof {
                    lemma_mods_named_prefix(all.drop_last(), i + 1);
                }
                return Err(LuaRuntimeError::InvalidArg(1));
            }
        }
        assert(all.drop_last().subrange(0, parts.len() as int) =~= all.drop_last());
        Ok(KeyPress { key, mods })
    }

    /// Reads the description of a key sequence: plain chars stand for
    /// themselves, `<token>` for a special or modified key.
    pub fn parse_sequence(input: &str) -> (r: Result<Vec<KeyPress>, LuaRuntimeError>)
        ensures
            match r {
                Ok(ks) => sequence_named(input@) == Some(presses_view(ks@)),
                Err(e) => sequence_named(input@) is None && e matches LuaRuntimeError::InvalidArg(1),
            },
    {
        if input.is_empty() {
            return Err(LuaRuntimeError::InvalidArg(1));
        }
        let cs = chars_of(input);
        let ghost s = cs@;
        let mut sequence: Vec<KeyPress> = Vec::new();
        let mut i: usize = 0;
        while i < cs.len()
            invariant
                s == cs@,
                s == input@,
                0 <= i <= cs.len(),
                presses_from(s, 0) == match presses_from(s, i as int) {
                    Some(rest) => Some(presses_view(sequence@) + rest),
                    None => None::<Seq<(KeyModel, u8)>>,
                },
            decreases cs.len() - i,
        {
            let c = cs[i];
            if c != '<' {
                // read single chars as they are
                let text = char_to_string(c);
                let ghost before = sequence@;
                sequence.push(KeyPress { key: Key::Character(text), mods: Mods::empty() });
                proof {
                    assert(presses_view(sequence@) =~= presses_view(before) + seq![
                        (KeyModel::Character(seq![c]), 0u8),
                    ]);
                    match presses_from(s, i + 1) {
                        Some(rest) => {
                            assert(presses_view(before) + (seq![
                                (KeyModel::Character(seq![c]), 0u8),
                            ] + rest) =~= presses_view(sequence@) + rest);
                        },
                        None => {},
                    }
                }
                i = i + 1;
            } else {
                // read special and modded keys inside angle brackets
                // mods are uppercase and separated between each and the key with a dash
                let mut token: Vec<char> = Vec::new();
                let mut j: usize = i + 1;
                while j < cs.len() && cs[j] != '>'
                    invariant
                        s == cs@,
                        s == input@,
                        i < cs.len(),
                        i + 1 <= j <= cs.len(),
                        token@ == s.subrange(i + 1, j as int),
                        forall|k: int| i + 1 <= k < j ==> s[k] != '>',
                    decreases cs.len() - j,
                {
                    token.push(cs[j]);
                    j = j + 1;
                    assert(token@ =~= s.subrange(i + 1, j as int));
                }
                // return err if the string ends before closing the special key
                if j >= cs.len() {
                    proof {
                        lemma_close_none(s, i + 1);
                        assert(presses_from(s, i as int) is None);
                        assert(s == input@);
                    }
                    return Err(LuaRuntimeError::InvalidArg(1));
                }
                // end on closing bracket
                proof {
                    lemma_close_at(s, i + 1, j as int);
                }
                let kp = match Self::parse_token_chars(&token) {
                    Ok(kp) => kp,
                    Err(e) => {
                        proof {
                            assert(presses_from(s, i as int) is None);
                            assert(s == input@);
                        }
                        return Err(e);
                    },
                };
                let ghost before = sequence@;
                sequence.push(kp);
                proof {
                    assert(presses_view(sequence@) =~= presses_view(before) + seq![kp@]);
                    match presses_from(s, j + 1) {
                        Some(rest) => {
                            assert(presses_view(before) + (seq![kp@] + rest) =~= presses_view(
                                sequence@,
                            ) + rest);
                        },
                        None => {},
                    }
                }
                i = j + 1;
            }
        }
        proof {
            assert(presses_view(sequence@) + Seq::<(KeyModel, u8)>::empty() =~= presses_view(
                sequence@,
            ));
        }
        if sequence.len() == 0 {
            proof {
                assert(s[0] == cs@[0]);
            }
            return Err(LuaRuntimeError::InvalidArg(1));
        }
        Ok(sequence)
    }

    /// The registry keeps one node per path, and every prefix of a path is a node.
    pub closed spec fn wf(&self) -> bool {
        &&& paths_unique(self.binds@)
        &&& prefix_closed(self@.trie)
    }

    /// The index of the node for `seq` in `mode`, if there is one.
    fn find(&self, mode: UserMode, seq: &Vec<KeyPress>) -> (r: Option<usize>)
        requires
            self.wf(),
        ensures
            match r {
                Some(i) => i < self.binds@.len() && node_path(self.binds@[i as int]) == (
                    mode,
                    presses_view(seq@),
                ),
                None => !self@.trie.contains_key((mode, presses_view(seq@))),
            },
    {
        for i in 0..self.binds.len()
            invariant
                self.wf(),
                forall|j: int|
                    0 <= j < i ==> node_path(self.binds@[j]) != (mode, presses_view(seq@)),
        {
            let node = &self.binds[i];
            if node.mode.same_as(&mode) && same_presses(&node.path, seq) {
                return Some(i);
            }
        }
        None
    }

    /// Whether some node of `mode` extends `seq` by one key.
    fn child_exists(&self, mode: UserMode, seq: &Vec<KeyPress>) -> (r: bool)
        requires
            self.wf(),
        ensures
            r == has_child(self@.trie, mode, presses_view(seq@)),
    {
        let ghost s = presses_view(seq@);
        for i in 0..self.binds.len()
            invariant
                self.wf(),
                s == presses_view(seq@),
                forall|j: int|
                    0 <= j < i ==> !(#[trigger] self.binds@[j].mode == mode && self.binds@[j].path@.len() == seq@.len() + 1
                        && presses_view(self.binds@[j].path@).take(seq@.len() as int) == s),
        {
            let node = &self.binds[i];
            if node.mode.same_as(&mode) && extends_by_one(&node.path, seq) {
                proof {
                    let pv = presses_view(node.path@);
                    let k = pv.last();
                    assert(pv =~= s.push(k));
                    lemma_trie_at(self.binds@, i as int);
                    assert(self@.trie.contains_key((mode, s.push(k))));
                }
                return true;
            }
        }
        proof {
            if has_child(self@.trie, mode, s) {
                let k = choose|k: (KeyModel, u8)| #[trigger] self@.trie.contains_key((mode, s.push(k)));
                let j = choose|j: int|
                    0 <= j < self.binds@.len() && node_path(self.binds@[j]) == (mode, s.push(k));
                assert(presses_view(self.binds@[j].path@) == s.push(k));
                assert(self.binds@[j].path@.len() == presses_view(self.binds@[j].path@).len());
                assert(s.len() == seq@.len());
                assert(presses_view(self.binds@[j].path@).take(seq@.len() as int) =~= s);
                assert(self.binds@[j].mode == mode);
                assert(self.binds@[j].path@.len() == seq@.len() + 1);
            }
        }
        false
    }

    /// Adds a node for `path` in `mode`, unbound, unless there is one.
    fn ensure_node(&mut self, mode: UserMode, path: Vec<KeyPress>)
        requires
            old(self).wf(),
            presses_view(path@).len() > 0 ==> old(self)@.trie.contains_key(
                (mode, presses_view(path@).drop_last()),
            ),
        ensures
            final(self).wf(),
            final(self)@.pending == old(self)@.pending,
            final(self)@.trie == if old(self)@.trie.contains_key((mode, presses_view(path@))) {
                old(self)@.trie
            } else {
                old(self)@.trie.insert((mode, presses_view(path@)), None)
            },
    {
        match self.find(mode, &path) {
            Some(_) => {},
            None => {
                let ghost p = (mode, presses_view(path@));
                let ghost old_trie = self@.trie;
                let node = TrieNode { mode, path, cmd: None };
                proof {
                    lemma_trie_push(self.binds@, node);
                }
                self.binds.push(node);
                proof {
                    let t = self@.trie;
                    assert(t == old_trie.insert(p, None));
                    assert forall|q: TriePath, n: int|
                        #![trigger t.contains_key(q), q.1.take(n)]
                        t.contains_key(q) && 0 <= n <= q.1.len() implies t.contains_key((q.0, q.1.take(n))) by {
                        if q == p && n < q.1.len() {
                            let d = (q.0, q.1.drop_last());
                            assert(old_trie.contains_key(d));
                            assert(d.1.take(n) =~= q.1.take(n));
                            assert(old_trie.contains_key((d.0, d.1.take(n))));
                        } else if q == p {
                            assert(q.1.take(n) =~= q.1);
                        } else {
                            assert(old_trie.contains_key(q));
                            assert(old_trie.contains_key((q.0, q.1.take(n))));
                        }
                    }
                }
            },
        }
    }

    /// Binds `sequence` in `mode` to `cmd`, adding the trie nodes on the way.
    pub fn register(&mut self, mode: UserMode, sequence: &[KeyPress], cmd: EditorCommand)
        requires
            old(self).wf(),
        ensures
            final(self).wf(),
            final(self)@.trie == registered(old(self)@.trie, mode, presses_view(sequence@), cmd),
            final(self)@.pending == old(self)@.pending,
    {
        let ghost s = presses_view(sequence@);
        let ghost t0 = self@.trie;
        let root: Vec<KeyPress> = Vec::new();
        assert(presses_view(root@) =~= s.take(0));
        self.ensure_node(mode, root);
        let mut n: usize = 0;
        while n < sequence.len()
            invariant
                self.wf(),
                s == presses_view(sequence@),
                n <= sequence@.len(),
                self@.pending == old(self)@.pending,
                self@.trie == with_prefixes(t0, mode, s, n as int),
            decreases sequence@.len() - n,
        {
            let path = copy_presses(sequence, n + 1);
            proof {
                assert(presses_view(path@).drop_last() =~= s.take(n as int));
                assert(self@.trie.contains_key((mode, s.take(n as int))));
            }
            let ghost before = self@.trie;
            self.ensure_node(mode, path);
            n = n + 1;
            proof {
                assert(self@.trie =~= with_prefixes(t0, mode, s, n as int)) by {
                    assert forall|q: TriePath| #[trigger] with_prefixes(t0, mode, s, n as int).contains_key(q) implies self@.trie.contains_key(q) by {
                        if !t0.contains_key(q) && q.1.len() == n {
                            assert(q.1 =~= s.take(n as int));
                        }
                    }
                    assert forall|q: TriePath| #[trigger] self@.trie.contains_key(q) implies with_prefixes(t0, mode, s, n as int).contains_key(q) by {
                        if q == (mode, s.take(n as int)) {
                            assert(s.take(n as int).len() == n);
                        }
                    }
                }
            }
        }
        let full = copy_presses(sequence, sequence.len());
        proof {
            assert(presses_view(full@) =~= s);
            assert(s.take(s.len() as int) =~= s);
        }
        match self.find(mode, &full) {
            Some(idx) => {
                let node = TrieNode { mode, path: full, cmd: Some(cmd) };
                proof {
                    lemma_trie_set(self.binds@, idx as int, node);
                }
                self.binds.set(idx, node);
                proof {
                    let t = self@.trie;
                    assert(t =~= registered(t0, mode, s, cmd));
                    assert forall|q: TriePath, k: int|
                        #![trigger t.contains_key(q), q.1.take(k)]
                        t.contains_key(q) && 0 <= k <= q.1.len() implies t.contains_key((q.0, q.1.take(k))) by {
                        let w = with_prefixes(t0, mode, s, s.len() as int);
                        assert(w.contains_key(q));
                        assert(w.contains_key((q.0, q.1.take(k))));
                    }
                }
            },
            None => {},
        }
    }

    /// Continues the pending sequence with `key` and looks it up in `mode`'s
    /// trie. A bound sequence with longer bindings below it waits, until `now`
    /// plus the timeout, for more keys; so does a node with no command and
    /// nothing below it. A node with no command but longer bindings below it
    /// gives no match and clears the pending sequence. Keys that name no node
    /// give no match and leave the pending sequence as it was.
    pub fn resolve(&mut self, mode: UserMode, key: KeyPress, now: Timestamp) -> (r:
        KeybindResolveResult)
        requires
            old(self).wf(),
            now.millis + TIMEOUT_MILLIS <= u64::MAX,
        ensures
            final(self).wf(),
            final(self)@.trie == old(self)@.trie,
            (r, final(self)@.pending) == resolve_step(old(self)@, mode, key@, now.millis),
            ({
                let s = continued(old(self)@.pending, key@);
                let longer = exists|k: (KeyModel, u8)|
                    #[trigger] old(self)@.trie.contains_key((mode, s.push(k)));
                let waiting = PendingModel {
                    cmd: old(self)@.trie[(mode, s)],
                    sequence: s,
                    deadline: (now.millis + TIMEOUT_MILLIS) as u64,
                };
                &&& !old(self)@.trie.contains_key((mode, s)) ==> r == KeybindResolveResult::NoMatch
                    && final(self)@.pending == old(self)@.pending
                &&& old(self)@.trie.contains_key((mode, s)) && old(self)@.trie[(mode, s)] is Some
                    && !longer ==> r == KeybindResolveResult::Match(old(self)@.trie[(mode, s)]->0)
                    && final(self)@.pending is None
                &&& old(self)@.trie.contains_key((mode, s)) && old(self)@.trie[(mode, s)] is Some
                    && longer ==> r == KeybindResolveResult::MatchOrPending(
                    old(self)@.trie[(mode, s)]->0,
                ) && final(self)@.pending == Some(waiting)
                &&& old(self)@.trie.contains_key((mode, s)) && old(self)@.trie[(mode, s)] is None
                    && !longer ==> r == KeybindResolveResult::Pending && final(self)@.pending
                    == Some(waiting)
                &&& old(self)@.trie.contains_key((mode, s)) && old(self)@.trie[(mode, s)] is None
                    && longer ==> r == KeybindResolveResult::NoMatch && final(self)@.pending is None
            }),
    {
        proof {
            lemma_resolve_cases(self@, mode, key@, now.millis);
        }
        let ghost s = continued(self@.pending, key@);
        // push to pending or create new sequence
        let sequence = match &self.pending {
            Some(state) => {
                let mut sequence = copy_presses(state.sequence.as_slice(), state.sequence.len());
                sequence.push(key);
                proof {
                    assert(presses_view(state.sequence@).take(state.sequence@.len() as int) =~= presses_view(state.sequence@));
                    assert(presses_view(sequence@) =~= s);
                }
                sequence
            },
            None => {
                let mut sequence: Vec<KeyPress> = Vec::new();
                sequence.push(key);
                proof {
                    assert(presses_view(sequence@) =~= s);
                }
                sequence
            },
        };
        // exit early if no node matches the sequence
        let idx = match self.find(mode, &sequence) {
            Some(i) => i,
            None => return KeybindResolveResult::NoMatch,
        };
        proof {
            lemma_trie_at(self.binds@, idx as int);
        }
        let cmd = self.binds[idx].cmd;
        let leaf = !self.child_exists(mode, &sequence);
        let deadline = Timestamp { millis: now.millis + TIMEOUT_MILLIS };
        match (cmd, leaf) {
            (Some(cmd), true) => {
                self.pending = None;
                KeybindResolveResult::Match(cmd)
            },
            (Some(cmd), false) => {
                self.pending = Some(PendingState { cmd: Some(cmd), sequence, deadline });
                KeybindResolveResult::MatchOrPending(cmd)
            },
            (None, true) => {
                self.pending = Some(PendingState { cmd: None, sequence, deadline });
                KeybindResolveResult::Pending
            },
            (None, false) => {
                self.pending = None;
                KeybindResolveResult::NoMatch
            },
        }
    }

    /// Gives up the pending sequence once its deadline has come, returning
    /// the command it was bound to, if any.
    pub fn check_pending_deadline(&mut self, now: Timestamp) -> (r: Option<EditorCommand>)
        requires
            old(self).wf(),
        ensures
            final(self).wf(),
            final(self)@.trie == old(self)@.trie,
            match old(self)@.pending {
                Some(p) => if p.deadline <= now.millis {
                    r == p.cmd && final(self)@.pending is None
                } else {
                    r is None && final(self)@.pending == old(self)@.pending
                },
                None => r is None && final(self)@.pending is None,
            },
    {
        let expired = match &self.pending {
            Some(state) => if state.deadline.millis <= now.millis {
                Some(state.cmd)
            } else {
                None
            },
            None => None,
        };
        match expired {
            Some(cmd) => {
                self.pending = None;
                cmd
            },
            None => None,
        }
    }
}

impl Default for KeybindRegistry {
    /// No bindings and nothing pending.
    fn default() -> (r: Self)
        ensures
            r.wf(),
            r@.trie == Map::<TriePath, Option<EditorCommand>>::empty(),
            r@.pending is None,
    {
        let r = KeybindRegistry { binds: Vec::new(), pending: None };
        assert(r@.trie =~= Map::<TriePath, Option<EditorCommand>>::empty());
        r
    }
}


/// Once `s` is bound to `cmd` in `mode`, pressing the last key of `s` while
/// the keys before it are pending (or, for a single key, while nothing is
/// pending) resolves to `cmd`: as a full match exactly when no longer binding
/// starts with `s`, otherwise as a match that waits for more keys.
pub proof fn lemma_resolve_finds_binding(
    trie: Map<TriePath, Option<EditorCommand>>,
    pending: Option<PendingModel>,
    mode: UserMode,
    s: Seq<(KeyModel, u8)>,
    cmd: EditorCommand,
    now: u64,
)
    requires
        s.len() > 0,
        match pending {
            None => s.len() == 1,
            Some(p) => p.sequence == s.drop_last(),
        },
    ensures
        ({
            let t = registered(trie, mode, s, cmd);
            let (r, after) = resolve_step(KeybindView { trie: t, pending }, mode, s.last(), now);
            &&& r == KeybindResolveResult::Match(cmd) <==> !has_child(t, mode, s)
            &&& r == KeybindResolveResult::MatchOrPending(cmd) <==> has_child(t, mode, s)
            &&& r is Match ==> after is None
            &&& r is MatchOrPending ==> after == Some(
                PendingModel { cmd: Some(cmd), sequence: s, deadline: (now + TIMEOUT_MILLIS) as u64 },
            )
        }),
{
    let t = registered(trie, mode, s, cmd);
    assert(continued(pending, s.last()) =~= s);
    assert(s.take(s.len() as int) =~= s);
    assert(t.contains_key((mode, s)));
}

/// Binding a sequence again replaces its command: the trie is as if only
/// the second binding had been made.
pub proof fn lemma_rebinding_replaces(
    trie: Map<TriePath, Option<EditorCommand>>,
    mode: UserMode,
    s: Seq<(KeyModel, u8)>,
    first: EditorCommand,
    second: EditorCommand,
)
    ensures
        registered(registered(trie, mode, s, first), mode, s, second) == registered(
            trie,
            mode,
            s,
            second,
        ),
{
    assert(registered(registered(trie, mode, s, first), mode, s, second) =~= registered(
        trie,
        mode,
        s,
        second,
    ));
}


/// The outcome of a key press by cases: the keys so far name no node, or a
/// node with or without a command, with or without longer bindings below.
pub proof fn lemma_resolve_cases(view: KeybindView, mode: UserMode, key: (KeyModel, u8), now: u64)
    ensures
        continued(view.pending, key) == (match view.pending {
            Some(p) => p.sequence.push(key),
            None => seq![key],
        }),
        ({
            let s = continued(view.pending, key);
            let longer = exists|k: (KeyModel, u8)| #[trigger] view.trie.contains_key((mode, s.push(k)));
            let waiting = PendingModel {
                cmd: view.trie[(mode, s)],
                sequence: s,
                deadline: (now + TIMEOUT_MILLIS) as u64,
            };
            let r = resolve_step(view, mode, key, now).0;
            let after = resolve_step(view, mode, key, now).1;
            &&& !view.trie.contains_key((mode, s)) ==> r == KeybindResolveResult::NoMatch && after
                == view.pending
            &&& view.trie.contains_key((mode, s)) && view.trie[(mode, s)] is Some && !longer ==> r
                == KeybindResolveResult::Match(view.trie[(mode, s)]->0) && after is None
            &&& view.trie.contains_key((mode, s)) && view.trie[(mode, s)] is Some && longer ==> r
                == KeybindResolveResult::MatchOrPending(view.trie[(mode, s)]->0) && after == Some(
                waiting,
            )
            &&& view.trie.contains_key((mode, s)) && view.trie[(mode, s)] is None && !longer ==> r
                == KeybindResolveResult::Pending && after == Some(waiting)
            &&& view.trie.contains_key((mode, s)) && view.trie[(mode, s)] is None && longer ==> r
                == KeybindResolveResult::NoMatch && after is None
        }),
{
}

/// Keys that name no node of the mode's trie resolve to no match and leave
/// the pending sequence as it was, whatever it was.
pub proof fn lemma_unknown_keys_change_nothing(
    view: KeybindView,
    mode: UserMode,
    key: (KeyModel, u8),
    now: u64,
)
    ensures
        continued(view.pending, key) == (match view.pending {
            Some(p) => p.sequence.push(key),
            None => seq![key],
        }),
        ({
            let s = continued(view.pending, key);
            !view.trie.contains_key((mode, s)) ==> resolve_step(view, mode, key, now) == (
                KeybindResolveResult::NoMatch,
                view.pending,
            )
        }),
{
}

/// The mode names: each short and long form names its mode, and nothing
/// else names a mode.
pub proof fn lemma_mode_names(s: Seq<char>)
    ensures
        mode_named("n"@) == Some(UserMode::Normal),
        mode_named("normal"@) == Some(UserMode::Normal),
        mode_named("v"@) == Some(UserMode::Visual),
        mode_named("visual"@) == Some(UserMode::Visual),
        mode_named("i"@) == Some(UserMode::Insert),
        mode_named("insert"@) == Some(UserMode::Insert),
        mode_named("c"@) == Some(UserMode::Command),
        mode_named("command"@) == Some(UserMode::Command),
        mode_named("t"@) == Some(UserMode::Terminal),
        mode_named("terminal"@) == Some(UserMode::Terminal),
        mode_named(s) is Some ==> s == "n"@ || s == "normal"@ || s == "v"@ || s == "visual"@ || s
            == "i"@ || s == "insert"@ || s == "c"@ || s == "command"@ || s == "t"@ || s
            == "terminal"@,
{
    reveal_strlit("n");
    assert("n"@.len() == 1);
    reveal_strlit("normal");
    assert("normal"@.len() == 6);
    reveal_strlit("v");
    assert("v"@.len() == 1);
    reveal_strlit("visual");
    assert("visual"@.len() == 6);
    reveal_strlit("i");
    assert("i"@.len() == 1);
    reveal_strlit("insert");
    assert("insert"@.len() == 6);
    reveal_strlit("c");
    assert("c"@.len() == 1);
    reveal_strlit("command");
    assert("command"@.len() == 7);
    reveal_strlit("t");
    assert("t"@.len() == 1);
    reveal_strlit("terminal");
    assert("terminal"@.len() == 8);
    assert("n"@[0] != "v"@[0]);
    assert("n"@[0] != "i"@[0]);
    assert("n"@[0] != "c"@[0]);
    assert("n"@[0] != "t"@[0]);
    assert("normal"@[0] != "visual"@[0]);
    assert("normal"@[0] != "insert"@[0]);
    assert("v"@[0] != "i"@[0]);
    assert("v"@[0] != "c"@[0]);
    assert("v"@[0] != "t"@[0]);
    assert("visual"@[0] != "insert"@[0]);
    assert("i"@[0] != "c"@[0]);
    assert("i"@[0] != "t"@[0]);
    assert("c"@[0] != "t"@[0]);
}

/// The command names: each names its command, and nothing else names one.
pub proof fn lemma_command_names(s: Seq<char>)
    ensures
        command_named("undo"@) == Some(EditorCommand::Undo),
        command_named("redo"@) == Some(EditorCommand::Redo),
        command_named("workspace.open"@) == Some(EditorCommand::OpenWorkspace),
        command_named("workspace.quit"@) == Some(EditorCommand::QuitWorkspace),
        command_named("mode.normal"@) == Some(EditorCommand::EnterNormalMode),
        command_named("mode.insert"@) == Some(EditorCommand::EnterInsertMode),
        command_named("mode.cmdline"@) == Some(EditorCommand::EnterCmdlineMode),
        command_named("mode.terminal"@) == Some(EditorCommand::EnterTerminalMode),
        command_named("buffer.move_focus"@) == Some(EditorCommand::MoveFocus),
        command_named("buffer.open"@) == Some(EditorCommand::OpenBuffer),
        command_named("buffer.split"@) == Some(EditorCommand::SplitBuffer),
        command_named("buffer.write"@) == Some(EditorCommand::WriteBuffer),
        command_named("buffer.quit"@) == Some(EditorCommand::QuitBuffer),
        command_named("buffer.op.move_cursor"@) == Some(EditorCommand::MoveCursor),
        command_named("buffer.op.insert"@) == Some(EditorCommand::Insert),
        command_named("buffer.op.delete"@) == Some(EditorCommand::Delete),
        command_named("buffer.op.delete_selection"@) == Some(EditorCommand::DeleteSelection),
        command_named(s) is Some ==> s == "undo"@ || s == "redo"@ || s == "workspace.open"@ || s
            == "workspace.quit"@ || s == "mode.normal"@ || s == "mode.insert"@ || s
            == "mode.cmdline"@ || s == "mode.terminal"@ || s == "buffer.move_focus"@ || s
            == "buffer.open"@ || s == "buffer.split"@ || s == "buffer.write"@ || s
            == "buffer.quit"@ || s == "buffer.op.move_cursor"@ || s == "buffer.op.insert"@ || s
            == "buffer.op.delete"@ || s == "buffer.op.delete_selection"@,
{
    reveal_strlit("undo");
    assert("undo"@.len() == 4);
    reveal_strlit("redo");
    assert("redo"@.len() == 4);
    reveal_strlit("workspace.open");
    assert("workspace.open"@.len() == 14);
    reveal_strlit("workspace.quit");
    assert("workspace.quit"@.len() == 14);
    reveal_strlit("mode.normal");
    assert("mode.normal"@.len() == 11);
    reveal_strlit("mode.insert");
    assert("mode.insert"@.len() == 11);
    reveal_strlit("mode.cmdline");
    assert("mode.cmdline"@.len() == 12);
    reveal_strlit("mode.terminal");
    assert("mode.terminal"@.len() == 13);
    reveal_strlit("buffer.move_focus");
    assert("buffer.move_focus"@.len() == 17);
    reveal_strlit("buffer.open");
    assert("buffer.open"@.len() == 11);
    reveal_strlit("buffer.split");
    assert("buffer.split"@.len() == 12);
    reveal_strlit("buffer.write");
    assert("buffer.write"@.len() == 12);
    reveal_strlit("buffer.quit");
    assert("buffer.quit"@.len() == 11);
    reveal_strlit("buffer.op.move_cursor");
    assert("buffer.op.move_cursor"@.len() == 21);
    reveal_strlit("buffer.op.insert");
    assert("buffer.op.insert"@.len() == 16);
    reveal_strlit("buffer.op.delete");
    assert("buffer.op.delete"@.len() == 16);
    reveal_strlit("buffer.op.delete_selection");
    assert("buffer.op.delete_selection"@.len() == 26);
    assert("undo"@[0] != "redo"@[0]);
    assert("workspace.open"@[10] != "workspace.quit"@[10]);
    assert("mode.normal"@[5] != "mode.insert"@[5]);
    assert("mode.normal"@[0] != "buffer.open"@[0]);
    assert("mode.normal"@[0] != "buffer.quit"@[0]);
    assert("mode.insert"@[0] != "buffer.open"@[0]);
    assert("mode.insert"@[0] != "buffer.quit"@[0]);
    assert("mode.cmdline"@[0] != "buffer.split"@[0]);
    assert("mode.cmdline"@[0] != "buffer.write"@[0]);
    assert("buffer.open"@[7] != "buffer.quit"@[7]);
    assert("buffer.split"@[7] != "buffer.write"@[7]);
    assert("buffer.op.insert"@[10] != "buffer.op.delete"@[10]);
}

/// The key names: a single char names that character's key, each named
/// key names the key of that name, and nothing else names a key.
pub proof fn lemma_key_names(s: Seq<char>, c: char)
    ensures
        key_named(seq![c]) == Some(KeyModel::Character(seq![c])),
        key_named("Space"@) == Some(KeyModel::Space),
        key_named("Enter"@) == Some(KeyModel::Enter),
        key_named("Escape"@) == Some(KeyModel::Escape),
        key_named("Backspace"@) == Some(KeyModel::Backspace),
        key_named("Tab"@) == Some(KeyModel::Tab),
        key_named("Delete"@) == Some(KeyModel::Delete),
        key_named("F1"@) == Some(KeyModel::F(1)),
        key_named("F2"@) == Some(KeyModel::F(2)),
        key_named("F3"@) == Some(KeyModel::F(3)),
        key_named("F4"@) == Some(KeyModel::F(4)),
        key_named("F5"@) == Some(KeyModel::F(5)),
        key_named("F6"@) == Some(KeyModel::F(6)),
        key_named("F7"@) == Some(KeyModel::F(7)),
        key_named("F8"@) == Some(KeyModel::F(8)),
        key_named("F9"@) == Some(KeyModel::F(9)),
        key_named("F10"@) == Some(KeyModel::F(10)),
        key_named("F11"@) == Some(KeyModel::F(11)),
        key_named("F12"@) == Some(KeyModel::F(12)),
        key_named("Up"@) == Some(KeyModel::Up),
        key_named("Down"@) == Some(KeyModel::Down),
        key_named("Left"@) == Some(KeyModel::Left),
        key_named("Right"@) == Some(KeyModel::Right),
        key_named(s) is Some ==> s.len() == 1 || s == "Space"@ || s == "Enter"@ || s
            == "Escape"@ || s == "Backspace"@ || s == "Tab"@ || s == "Delete"@ || s == "F1"@ || s
            == "F2"@ || s == "F3"@ || s == "F4"@ || s == "F5"@ || s == "F6"@ || s == "F7"@ || s
            == "F8"@ || s == "F9"@ || s == "F10"@ || s == "F11"@ || s == "F12"@ || s == "Up"@
            || s == "Down"@ || s == "Left"@ || s == "Right"@,
{
    reveal_strlit("Space");
    assert("Space"@.len() == 5);
    reveal_strlit("Enter");
    assert("Enter"@.len() == 5);
    reveal_strlit("Escape");
    assert("Escape"@.len() == 6);
    reveal_strlit("Backspace");
    assert("Backspace"@.len() == 9);
    reveal_strlit("Tab");
    assert("Tab"@.len() == 3);
    reveal_strlit("Delete");
    assert("Delete"@.len() == 6);
    reveal_strlit("F1");
    assert("F1"@.len() == 2);
    reveal_strlit("F2");
    assert("F2"@.len() == 2);
    reveal_strlit("F3");
    assert("F3"@.len() == 2);
    reveal_strlit("F4");
    assert("F4"@.len() == 2);
    reveal_strlit("F5");
    assert("F5"@.len() == 2);
    reveal_strlit("F6");
    assert("F6"@.len() == 2);
    reveal_strlit("F7");
    assert("F7"@.len() == 2);
    reveal_strlit("F8");
    assert("F8"@.len() == 2);
    reveal_strlit("F9");
    assert("F9"@.len() == 2);
    reveal_strlit("F10");
    assert("F10"@.len() == 3);
    reveal_strlit("F11");
    assert("F11"@.len() == 3);
    reveal_strlit("F12");
    assert("F12"@.len() == 3);
    reveal_strlit("Up");
    assert("Up"@.len() == 2);
    reveal_strlit("Down");
    assert("Down"@.len() == 4);
    reveal_strlit("Left");
    assert("Left"@.len() == 4);
    reveal_strlit("Right");
    assert("Right"@.len() == 5);
    assert("Space"@[0] != "Enter"@[0]);
    assert("Space"@[0] != "Right"@[0]);
    assert("Enter"@[0] != "Right"@[0]);
    assert("Escape"@[0] != "Delete"@[0]);
    assert("Tab"@[0] != "F10"@[0]);
    assert("Tab"@[0] != "F11"@[0]);
    assert("Tab"@[0] != "F12"@[0]);
    assert("F1"@[1] != "F2"@[1]);
    assert("F1"@[1] != "F3"@[1]);
    assert("F1"@[1] != "F4"@[1]);
    assert("F1"@[1] != "F5"@[1]);
    assert("F1"@[1] != "F6"@[1]);
    assert("F1"@[1] != "F7"@[1]);
    assert("F1"@[1] != "F8"@[1]);
    assert("F1"@[1] != "F9"@[1]);
    assert("F1"@[0] != "Up"@[0]);
    assert("F2"@[1] != "F3"@[1]);
    assert("F2"@[1] != "F4"@[1]);
    assert("F2"@[1] != "F5"@[1]);
    assert("F2"@[1] != "F6"@[1]);
    assert("F2"@[1] != "F7"@[1]);
    assert("F2"@[1] != "F8"@[1]);
    assert("F2"@[1] != "F9"@[1]);
    assert("F2"@[0] != "Up"@[0]);
    assert("F3"@[1] != "F4"@[1]);
    assert("F3"@[1] != "F5"@[1]);
    assert("F3"@[1] != "F6"@[1]);
    assert("F3"@[1] != "F7"@[1]);
    assert("F3"@[1] != "F8"@[1]);
    assert("F3"@[1] != "F9"@[1]);
    assert("F3"@[0] != "Up"@[0]);
    assert("F4"@[1] != "F5"@[1]);
    assert("F4"@[1] != "F6"@[1]);
    assert("F4"@[1] != "F7"@[1]);
    assert("F4"@[1] != "F8"@[1]);
    assert("F4"@[1] != "F9"@[1]);
    assert("F4"@[0] != "Up"@[0]);
    assert("F5"@[1] != "F6"@[1]);
    assert("F5"@[1] != "F7"@[1]);
    assert("F5"@[1] != "F8"@[1]);
    assert("F5"@[1] != "F9"@[1]);
    assert("F5"@[0] != "Up"@[0]);
    assert("F6"@[1] != "F7"@[1]);
    assert("F6"@[1] != "F8"@[1]);
    assert("F6"@[1] != "F9"@[1]);
    assert("F6"@[0] != "Up"@[0]);
    assert("F7"@[1] != "F8"@[1]);
    assert("F7"@[1] != "F9"@[1]);
    assert("F7"@[0] != "Up"@[0]);
    assert("F8"@[1] != "F9"@[1]);
    assert("F8"@[0] != "Up"@[0]);
    assert("F9"@[0] != "Up"@[0]);
    assert("F10"@[2] != "F11"@[2]);
    assert("F10"@[2] != "F12"@[2]);
    assert("F11"@[2] != "F12"@[2]);
    assert("Down"@[0] != "Left"@[0]);
}

/// The modifier names: each names its modifier bit, and nothing else names one.
pub proof fn lemma_mod_names(s: Seq<char>)
    ensures
        mod_named("SHIFT"@) == Some(Mods::SHIFT),
        mod_named("CTRL"@) == Some(Mods::CTRL),
        mod_named("ALT"@) == Some(Mods::ALT),
        mod_named("SUPER"@) == Some(Mods::SUPER),
        Mods::SHIFT == 1 && Mods::CTRL == 2 && Mods::ALT == 4 && Mods::SUPER == 8,
        mod_named(s) is Some ==> s == "SHIFT"@ || s == "CTRL"@ || s == "ALT"@ || s == "SUPER"@,
{
    reveal_strlit("SHIFT");
    assert("SHIFT"@.len() == 5);
    reveal_strlit("CTRL");
    assert("CTRL"@.len() == 4);
    reveal_strlit("ALT");
    assert("ALT"@.len() == 3);
    reveal_strlit("SUPER");
    assert("SUPER"@.len() == 5);
    assert((1u8 << 0u8) == 1u8 && (1u8 << 1u8) == 2u8 && (1u8 << 2u8) == 4u8 && (1u8 << 3u8) == 8u8)
        by (bit_vector);
    assert("SHIFT"@[1] != "SUPER"@[1]);
}


/// Binding `s` in `mode` binds exactly `s`: every other path keeps its node
/// and command, every prefix of `s` becomes a node, and nothing else is
/// added.
pub proof fn lemma_register_binds_only_its_sequence(
    trie: Map<TriePath, Option<EditorCommand>>,
    mode: UserMode,
    s: Seq<(KeyModel, u8)>,
    cmd: EditorCommand,
    p: TriePath,
)
    ensures
        registered(trie, mode, s, cmd).contains_key((mode, s)),
        registered(trie, mode, s, cmd)[(mode, s)] == Some(cmd),
        p != (mode, s) && trie.contains_key(p) ==> registered(trie, mode, s, cmd).contains_key(p)
            && registered(trie, mode, s, cmd)[p] == trie[p],
        forall|n: int|
            0 <= n <= s.len() ==> #[trigger] registered(trie, mode, s, cmd).contains_key(
                (mode, s.take(n)),
            ),
        registered(trie, mode, s, cmd).contains_key(p) ==> trie.contains_key(p) || (p.0 == mode
            && p.1.len() <= s.len() && p.1 == s.take(p.1.len() as int)),
        registered(trie, mode, s, cmd).contains_key(p) && !trie.contains_key(p) && p != (mode, s)
            ==> registered(trie, mode, s, cmd)[p] is None,
{
    assert(s.take(s.len() as int) =~= s);
    assert forall|n: int| 0 <= n <= s.len() implies #[trigger] registered(
        trie,
        mode,
        s,
        cmd,
    ).contains_key((mode, s.take(n))) by {
        assert(s.take(n).take(n) =~= s.take(n));
    }
}

/// A text without dashes is one part.
pub proof fn lemma_split_dash_plain(t: Seq<char>)
    requires
        !t.contains('-'),
    ensures
        split_dash(t) == seq![t],
    decreases t.len(),
{
    if t.len() > 0 {
        assert(!t.drop_last().contains('-')) by {
            if t.drop_last().contains('-') {
                let i = choose|i: int| 0 <= i < t.drop_last().len() && t.drop_last()[i] == '-';
                assert(t[i] == '-');
            }
        }
        lemma_split_dash_plain(t.drop_last());
        assert(t.last() != '-') by {
            assert(t[t.len() - 1] == t.last());
        }
        assert(t.drop_last().push(t.last()) =~= t);
        assert(seq![t.drop_last()].update(0, t.drop_last().push(t.last())) =~= seq![t]);
    } else {
        assert(t =~= Seq::<char>::empty());
    }
}

/// A dash followed by a text without dashes adds that text as the last part.
pub proof fn lemma_split_dash_then(a: Seq<char>, t: Seq<char>)
    requires
        !t.contains('-'),
    ensures
        split_dash(a.push('-') + t) == split_dash(a).push(t),
    decreases t.len(),
{
    if t.len() == 0 {
        assert(a.push('-') + t =~= a.push('-'));
        assert(a.push('-').drop_last() =~= a);
        assert(t =~= Seq::<char>::empty());
    } else {
        let u = a.push('-') + t;
        assert(!t.drop_last().contains('-')) by {
            if t.drop_last().contains('-') {
                let i = choose|i: int| 0 <= i < t.drop_last().len() && t.drop_last()[i] == '-';
                assert(t[i] == '-');
            }
        }
        lemma_split_dash_then(a, t.drop_last());
        assert(u.drop_last() =~= a.push('-') + t.drop_last());
        assert(u.last() == t.last());
        assert(t.last() != '-') by {
            assert(t[t.len() - 1] == t.last());
        }
        assert(t.drop_last().push(t.last()) =~= t);
        let prev = split_dash(a).push(t.drop_last());
        assert(prev.update(prev.len() - 1, prev.last().push(t.last())) =~= split_dash(a).push(t));
    }
}

/// A key name alone is that key with no modifier, and a modifier name, a
/// dash and a key name is that key with that modifier.
pub proof fn lemma_token_names(m: Seq<char>, k: Seq<char>)
    requires
        !m.contains('-'),
        !k.contains('-'),
    ensures
        key_named(k) is Some ==> token_named(k) == Some((key_named(k)->0, 0u8)),
        key_named(k) is Some && mod_named(m) is Some ==> token_named(m.push('-') + k) == Some(
            (key_named(k)->0, mod_named(m)->0),
        ),
        key_named(k) is None ==> token_named(k) is None && token_named(m.push('-') + k) is None,
        mod_named(m) is None ==> token_named(m.push('-') + k) is None,
{
    lemma_split_dash_plain(k);
    lemma_split_dash_plain(m);
    lemma_split_dash_then(m, k);
    assert(seq![k].drop_last() =~= Seq::<Seq<char>>::empty());
    assert(seq![m].push(k).drop_last() =~= seq![m]);
    assert(seq![m].drop_last() =~= Seq::<Seq<char>>::empty());
    reveal_strlit("SHIFT");
    reveal_strlit("CTRL");
    reveal_strlit("ALT");
    reveal_strlit("SUPER");
    if let Some(bit) = mod_named(m) {
        assert((0u8 & bit) == 0u8 && (0u8 | bit) == bit) by (bit_vector);
        assert(mods_with(0u8, bit) == bit);
        let parts = split_dash(m.push('-') + k);
        assert(parts.last() == k);
        assert(parts.drop_last() =~= seq![m]);
        assert(seq![m].last() == m);
        assert(mods_named(Seq::<Seq<char>>::empty()) == Some(0u8));
        assert(mods_named(seq![m]) == Some(bit));
        assert(mods_named(parts.drop_last()) == Some(bit));
        if let Some(key) = key_named(k) {
            assert(token_named(m.push('-') + k) == Some((key, bit)));
        }
    }
}

/// A description without angle brackets stands for its chars, each pressed
/// alone, in order.
pub proof fn lemma_plain_sequence(s: Seq<char>, i: int)
    requires
        0 <= i <= s.len(),
        !s.contains('<'),
    ensures
        presses_from(s, i) == Some(
            Seq::new((s.len() - i) as nat, |j: int| (KeyModel::Character(seq![s[i + j]]), 0u8)),
        ),
    decreases s.len() - i,
{
    if i < s.len() {
        assert(s[i] != '<');
        lemma_plain_sequence(s, i + 1);
        assert(seq![(KeyModel::Character(seq![s[i]]), 0u8)] + Seq::new(
            (s.len() - (i + 1)) as nat,
            |j: int| (KeyModel::Character(seq![s[i + 1 + j]]), 0u8),
        ) =~= Seq::new((s.len() - i) as nat, |j: int| (KeyModel::Character(seq![s[i + j]]), 0u8)));
    } else {
        assert(Seq::new(0, |j: int| (KeyModel::Character(seq![s[i + j]]), 0u8)) =~= Seq::<
            (KeyModel, u8),
        >::empty());
    }
}

} // verus!
