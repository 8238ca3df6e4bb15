use vstd::prelude::*;
use crate::model::{
    ar, comma_join, comma_join_refs, dependents_end, dependents_spec, has_key, insert_entry,
    model_ends, all_valid, names, sk, Artifact, ArtifactReference, ArtifactV, Assoc, Block, BlockV,
    InMemoryModel, Key, Model, SlotKind, SlotName, lemma_slot_map_view, slot_map_view, keys_unique, map_of,
    lemma_insert_entry,
};

verus! {

/// What the editor shows.
#[derive(Debug)]
pub enum EditorState {
    Listing,
    AddingABlock(String, String),
    ChangingBlockKind(ArtifactReference, String),
    AddingSlotToBlock(ArtifactReference, String, String),
    RenamingBlockSlot(ArtifactReference, SlotName, String),
}

/// What the user asked for.
#[derive(Debug)]
pub enum EditorAction {
    GoToListing,
    OpenAddBlockPrompt,
    ConfirmAddBlock(String, String),
    SafelyDeleteArtifact(ArtifactReference),
    OpenChangeBlockKindPrompt(ArtifactReference),
    OpenAddSlotToBlockPrompt(ArtifactReference),
    ConfirmChangeBlockKind(ArtifactReference, SlotKind),
    ConfirmAddSlotToBlock(ArtifactReference, SlotName, SlotKind),
    OpenRenameBlockSlotPrompt(ArtifactReference, SlotName),
    ConfirmRenameBlockSlot(ArtifactReference, SlotName, SlotName),
}

/// A line of the editor's log.
#[derive(Debug)]
pub enum EditorLog {
    Info(String),
    Error(String),
}

/// What the editor keeps between frames.
#[derive(Debug)]
pub struct EditorContext {
    pub focused: bool,
    pub log: Vec<EditorLog>,
    pub model_is_valid: bool,
    pub pending_actions: Vec<EditorAction>,
}

/// An editor of a model of artifacts.
#[derive(Debug)]
pub struct ModelEditor {
    pub context: EditorContext,
    pub state: EditorState,
}

pub enum EditorStateV {
    Listing,
    AddingABlock(Seq<char>, Seq<char>),
    ChangingBlockKind(Seq<char>, Seq<char>),
    AddingSlotToBlock(Seq<char>, Seq<char>, Seq<char>),
    RenamingBlockSlot(Seq<char>, Seq<char>, Seq<char>),
}

pub enum EditorActionV {
    GoToListing,
    OpenAddBlockPrompt,
    ConfirmAddBlock(Seq<char>, Seq<char>),
    SafelyDeleteArtifact(Seq<char>),
    OpenChangeBlockKindPrompt(Seq<char>),
    OpenAddSlotToBlockPrompt(Seq<char>),
    ConfirmChangeBlockKind(Seq<char>, Seq<char>),
    ConfirmAddSlotToBlock(Seq<char>, Seq<char>, Seq<char>),
    OpenRenameBlockSlotPrompt(Seq<char>, Seq<char>),
    ConfirmRenameBlockSlot(Seq<char>, Seq<char>, Seq<char>),
}

pub enum EditorLogV {
    Info(Seq<char>),
    Error(Seq<char>),
}

pub struct EditorV {
    pub state: EditorStateV,
    pub focused: bool,
    pub log: Seq<EditorLogV>,
    pub model_is_valid: bool,
    pub pending_actions: Seq<EditorActionV>,
}

impl View for EditorState {
    type V = EditorStateV;

    open spec fn view(&self) -> EditorStateV {
        match self {
            EditorState::Listing => EditorStateV::Listing,
            EditorState::AddingABlock(a, k) => EditorStateV::AddingABlock(a@, k@),
            EditorState::ChangingBlockKind(a, k) => EditorStateV::ChangingBlockKind(a@, k@),
            EditorState::AddingSlotToBlock(a, s, k) => EditorStateV::AddingSlotToBlock(a@, s@, k@),
            EditorState::RenamingBlockSlot(a, s, n) => EditorStateV::RenamingBlockSlot(a@, s@, n@),
        }
    }
}

impl View for EditorAction {
    type V = EditorActionV;

    open spec fn view(&self) -> EditorActionV {
        match self {
            EditorAction::GoToListing => EditorActionV::GoToListing,
            EditorAction::OpenAddBlockPrompt => EditorActionV::OpenAddBlockPrompt,
            EditorAction::ConfirmAddBlock(a, k) => EditorActionV::ConfirmAddBlock(a@, k@),
            EditorAction::SafelyDeleteArtifact(a) => EditorActionV::SafelyDeleteArtifact(a@),
            EditorAction::OpenChangeBlockKindPrompt(a) => EditorActionV::OpenChangeBlockKindPrompt(a@),
            EditorAction::OpenAddSlotToBlockPrompt(a) => EditorActionV::OpenAddSlotToBlockPrompt(a@),
            EditorAction::ConfirmChangeBlockKind(a, k) => EditorActionV::ConfirmChangeBlockKind(a@, k@),
            EditorAction::ConfirmAddSlotToBlock(a, s, k) => EditorActionV::ConfirmAddSlotToBlock(a@, s@, k@),
            EditorAction::OpenRenameBlockSlotPrompt(a, s) => EditorActionV::OpenRenameBlockSlotPrompt(a@, s@),
            EditorAction::ConfirmRenameBlockSlot(a, s, n) => EditorActionV::ConfirmRenameBlockSlot(
                a@,
                s@,
                n@,
            ),
        }
    }
}

impl View for EditorLog {
    type V = EditorLogV;

    open spec fn view(&self) -> EditorLogV {
        match self {
            EditorLog::Info(t) => EditorLogV::Info(t@),
            EditorLog::Error(t) => EditorLogV::Error(t@),
        }
    }
}

pub open spec fn logs_view(l: Seq<EditorLog>) -> Seq<EditorLogV> {
    l.map_values(|e: EditorLog| e@)
}

pub open spec fn actions_view(l: Seq<EditorAction>) -> Seq<EditorActionV> {
    l.map_values(|a: EditorAction| a@)
}

impl View for ModelEditor {
    type V = EditorV;

    open spec fn view(&self) -> EditorV {
        EditorV {
            state: self.state@,
            focused: self.context.focused,
            log: logs_view(self.context.log@),
            model_is_valid: self.context.model_is_valid,
            pending_actions: actions_view(self.context.pending_actions@),
        }
    }
}

impl Default for EditorState {
    fn default() -> (r: Self)
        ensures
            r@ == EditorStateV::Listing,
    {
        EditorState::Listing
    }
}

impl Default for EditorContext {
    fn default() -> (r: Self)
        ensures
            !r.focused,
            r.log@.len() == 0,
            !r.model_is_valid,
            r.pending_actions@.len() == 0,
    {
        EditorContext { focused: false, log: Vec::new(), model_is_valid: false, pending_actions: Vec::new() }
    }
}

impl Default for ModelEditor {
    fn default() -> (r: Self)
        ensures
            r@ == (EditorV {
                state: EditorStateV::Listing,
                focused: false,
                log: Seq::empty(),
                model_is_valid: false,
                pending_actions: Seq::empty(),
            }),
    {
        let r = ModelEditor { context: EditorContext::default(), state: EditorState::default() };
        assert(logs_view(r.context.log@) =~= Seq::<EditorLogV>::empty());
        assert(actions_view(r.context.pending_actions@) =~= Seq::<EditorActionV>::empty());
        r
    }
}

impl EditorContext {
    /// Logs an error.
    pub fn error(&mut self, text: String)
        ensures
            final(self).log@ == old(self).log@.push(EditorLog::Error(text)),
            final(self).focused == old(self).focused,
            final(self).model_is_valid == old(self).model_is_valid,
            final(self).pending_actions@ == old(self).pending_actions@,
    {
        self.log.push(EditorLog::Error(text));
    }

    /// Logs a piece of information.
    pub fn info(&mut self, text: String)
        ensures
            final(self).log@ == old(self).log@.push(EditorLog::Info(text)),
            final(self).focused == old(self).focused,
            final(self).model_is_valid == old(self).model_is_valid,
            final(self).pending_actions@ == old(self).pending_actions@,
    {
        self.log.push(EditorLog::Info(text));
    }

    /// Queues an action, to be fulfilled later.
    pub fn should(&mut self, action: EditorAction)
        ensures
            final(self).pending_actions@ == old(self).pending_actions@.push(action),
            final(self).focused == old(self).focused,
            final(self).model_is_valid == old(self).model_is_valid,
            final(self).log@ == old(self).log@,
    {
        self.pending_actions.push(action);
    }
}

pub open spec fn title_of(s: EditorStateV) -> Seq<char> {
    match s {
        EditorStateV::Listing => "Showing existing models"@,
        EditorStateV::AddingABlock(_, _) => "Adding a new block"@,
        EditorStateV::ChangingBlockKind(_, _) => "Changing block kind"@,
        EditorStateV::AddingSlotToBlock(_, _, _) => "Adding slot to a block"@,
        EditorStateV::RenamingBlockSlot(_, _, _) => "Renaming block slot"@,
    }
}

impl ModelEditor {
    /// The title of what the editor shows.
    pub fn title(&mut self) -> (r: &str)
        ensures
            r@ == title_of(old(self).state@),
            final(self)@ == old(self)@,
    {
        match self.state {
            EditorState::Listing => "Showing existing models",
            EditorState::AddingABlock(_, _) => "Adding a new block",
            EditorState::ChangingBlockKind(_, _) => "Changing block kind",
            EditorState::AddingSlotToBlock(_, _, _) => "Adding slot to a block",
            EditorState::RenamingBlockSlot(_, _, _) => "Renaming block slot",
        }
    }
}

// ---------------------------------------------------------------------------
// Fulfilling actions
// ---------------------------------------------------------------------------

pub open spec fn shown_slot(s: Seq<char>) -> Seq<char> {
    seq!['\''] + s
}

pub open spec fn shown_kind(k: Seq<char>) -> Seq<char> {
    seq!['['] + k + seq![']']
}

pub open spec fn msg_block_exists(a: Seq<char>) -> Seq<char> {
    "Block "@ + a + " already exists"@
}

pub open spec fn msg_added_block(a: Seq<char>, k: Seq<char>) -> Seq<char> {
    "Added block "@ + a + " with kind "@ + k
}

pub open spec fn msg_block_missing(a: Seq<char>) -> Seq<char> {
    "Block "@ + a + " does not exists"@
}

pub open spec fn msg_removed(a: Seq<char>) -> Seq<char> {
    "Removed "@ + a
}

pub open spec fn msg_cannot_delete(a: Seq<char>, ds: Seq<Seq<char>>) -> Seq<char> {
    "Cannot delete "@ + a + ", because "@ + comma_join(ds) + " depends on it"@
}

pub open spec fn msg_artifact_missing(a: Seq<char>) -> Seq<char> {
    "Artifact "@ + a + " does not exists"@
}

pub open spec fn msg_not_block(a: Seq<char>) -> Seq<char> {
    "Artifact "@ + a + " is not a block"@
}

pub open spec fn msg_kind_invalidates() -> Seq<char> {
    "Changing block kind would invalidate model"@
}

pub open spec fn msg_changed_kind(a: Seq<char>, k: Seq<char>) -> Seq<char> {
    "Changed "@ + a + " kind to "@ + shown_kind(k)
}

pub open spec fn msg_slot_exists(a: Seq<char>, s: Seq<char>) -> Seq<char> {
    "Slot "@ + shown_slot(s) + " already exists in "@ + a
}

pub open spec fn msg_added_slot(a: Seq<char>, s: Seq<char>, k: Seq<char>) -> Seq<char> {
    "Added slot "@ + shown_slot(s) + " of kind "@ + shown_kind(k) + " to "@ + a
}

/// Block `r` with main slot kind `k` in place of its own.
pub open spec fn kind_changed(m: Map<Seq<char>, ArtifactV>, r: Seq<char>, k: Seq<char>) -> Map<
    Seq<char>,
    ArtifactV,
> {
    m.insert(r, ArtifactV::Block(BlockV { main_slot_kind: k, slots: m[r]->Block_0.slots }))
}

/// Block `r` with a slot `s` of kind `k` added.
pub open spec fn slot_added(m: Map<Seq<char>, ArtifactV>, r: Seq<char>, s: Seq<char>, k: Seq<char>) -> Map<
    Seq<char>,
    ArtifactV,
> {
    m.insert(
        r,
        ArtifactV::Block(
            BlockV {
                main_slot_kind: m[r]->Block_0.main_slot_kind,
                slots: insert_entry(m[r]->Block_0.slots, s, k),
            },
        ),
    )
}

pub open spec fn shows(e: EditorV, state: EditorStateV) -> EditorV {
    EditorV { state, ..e }
}

pub open spec fn logs(e: EditorV, l: EditorLogV) -> EditorV {
    EditorV { log: e.log.push(l), ..e }
}

/// The model after an action.
pub open spec fn fulfilled_model(m: Map<Seq<char>, ArtifactV>, a: EditorActionV) -> Map<Seq<char>, ArtifactV> {
    match a {
        EditorActionV::ConfirmAddBlock(r, k) => if m.contains_key(r) {
            m
        } else {
            m.insert(r, ArtifactV::Block(BlockV { main_slot_kind: k, slots: Seq::empty() }))
        },
        EditorActionV::SafelyDeleteArtifact(r) => if m.contains_key(r) && dependents_spec(m, r).is_empty() {
            m.remove(r)
        } else {
            m
        },
        EditorActionV::ConfirmChangeBlockKind(r, k) => if m.contains_key(r) && m[r] is Block && all_valid(
            kind_changed(m, r, k),
        ) {
            kind_changed(m, r, k)
        } else {
            m
        },
        EditorActionV::ConfirmAddSlotToBlock(r, s, k) => if m.contains_key(r) && m[r] is Block && !has_key(
            m[r]->Block_0.slots,
            s,
        ) {
            slot_added(m, r, s, k)
        } else {
            m
        },
        _ => m,
    }
}

/// The editor after an action; `ds` lists the dependents that stop a deletion.
pub open spec fn fulfilled_editor(
    e: EditorV,
    m: Map<Seq<char>, ArtifactV>,
    a: EditorActionV,
    ds: Seq<Seq<char>>,
) -> EditorV {
    match a {
        EditorActionV::GoToListing => shows(e, EditorStateV::Listing),
        EditorActionV::OpenAddBlockPrompt => shows(
            e,
            EditorStateV::AddingABlock("my_new_block"@, "NewBlockKind"@),
        ),
        EditorActionV::ConfirmAddBlock(r, k) => if m.contains_key(r) {
            logs(e, EditorLogV::Error(msg_block_exists(r)))
        } else {
            shows(logs(e, EditorLogV::Info(msg_added_block(r, k))), EditorStateV::Listing)
        },
        EditorActionV::SafelyDeleteArtifact(r) => if !m.contains_key(r) {
            logs(e, EditorLogV::Error(msg_block_missing(r)))
        } else if dependents_spec(m, r).is_empty() {
            logs(e, EditorLogV::Info(msg_removed(r)))
        } else {
            logs(e, EditorLogV::Error(msg_cannot_delete(r, ds)))
        },
        EditorActionV::OpenChangeBlockKindPrompt(r) => shows(
            e,
            EditorStateV::ChangingBlockKind(r, "NewBlockKind"@),
        ),
        EditorActionV::ConfirmChangeBlockKind(r, k) => if !m.contains_key(r) {
            logs(e, EditorLogV::Error(msg_artifact_missing(r)))
        } else if m[r] is Structure {
            logs(e, EditorLogV::Error(msg_not_block(r)))
        } else if !all_valid(kind_changed(m, r, k)) {
            logs(e, EditorLogV::Error(msg_kind_invalidates()))
        } else {
            shows(logs(e, EditorLogV::Info(msg_changed_kind(r, k))), EditorStateV::Listing)
        },
        EditorActionV::OpenAddSlotToBlockPrompt(r) => shows(
            e,
            EditorStateV::AddingSlotToBlock(r, "slot_name"@, "SlotKind"@),
        ),
        EditorActionV::ConfirmAddSlotToBlock(r, s, k) => if !m.contains_key(r) {
            logs(e, EditorLogV::Error(msg_artifact_missing(r)))
        } else if m[r] is Structure {
            logs(e, EditorLogV::Error(msg_not_block(r)))
        } else if has_key(m[r]->Block_0.slots, s) {
            logs(e, EditorLogV::Error(msg_slot_exists(r, s)))
        } else {
            shows(logs(e, EditorLogV::Info(msg_added_slot(r, s, k))), EditorStateV::Listing)
        },
        EditorActionV::OpenRenameBlockSlotPrompt(r, s) => shows(
            e,
            EditorStateV::RenamingBlockSlot(r, s, "new_slot_name"@),
        ),
        EditorActionV::ConfirmRenameBlockSlot(_, _, _) => e,
    }
}

/// The listing of dependents `ds` fits action `a`: for a deletion, it
/// names the dependents of the artifact.
pub open spec fn lists_dependents(m: Map<Seq<char>, ArtifactV>, a: EditorActionV, ds: Seq<Seq<char>>) -> bool {
    match a {
        EditorActionV::SafelyDeleteArtifact(r) => m.contains_key(r) ==> ds.to_set() == dependents_spec(m, r),
        _ => true,
    }
}

/// The actions that can be fulfilled: renaming a slot is not supported yet,
/// and searching dependents or validating the model must end.
pub open spec fn can_fulfill(m: Map<Seq<char>, ArtifactV>, a: EditorActionV) -> bool {
    match a {
        EditorActionV::SafelyDeleteArtifact(r) => m.contains_key(r) ==> dependents_end(m, r),
        EditorActionV::ConfirmChangeBlockKind(r, k) => m.contains_key(r) && m[r] is Block ==> model_ends(
            kind_changed(m, r, k),
        ),
        EditorActionV::ConfirmRenameBlockSlot(_, _, _) => false,
        _ => true,
    }
}

fn msg2(a: &str, b: &str) -> (r: String)
    ensures
        r@ == a@ + b@,
{
    let mut r = String::from_str(a);
    r.append(b);
    r
}

fn msg3(a: &str, b: &str, c: &str) -> (r: String)
    ensures
        r@ == a@ + b@ + c@,
{
    let mut r = String::from_str(a);
    r.append(b);
    r.append(c);
    r
}

impl ModelEditor {
    fn show_state(&mut self, state: EditorState)
        ensures
            final(self)@ == shows(old(self)@, state@),
    {
        self.state = state;
    }

    fn log(&mut self, l: EditorLog)
        ensures
            final(self)@ == logs(old(self)@, l@),
            final(self).state == old(self).state,
    {
        let ghost before = self.context.log@;
        self.context.log.push(l);
        assert(logs_view(self.context.log@) =~= logs_view(before).push(l@));
    }

    /// Carries out an action on the model and on what the editor shows,
    /// logging what was done or why it was not.
    pub fn fullfill_action(&mut self, model: &mut InMemoryModel, action: EditorAction)
        requires
            can_fulfill(old(model).artifacts(), action@),
        ensures
            final(model).artifacts() == fulfilled_model(old(model).artifacts(), action@),
            exists|ds: Seq<Seq<char>>|
                lists_dependents(old(model).artifacts(), action@, ds) && final(self)@ == fulfilled_editor(
                    old(self)@,
                    old(model).artifacts(),
                    action@,
                    ds,
                ),
    {
        let ghost m = model.artifacts();
        let ghost a = action@;
        let ghost e = self@;
        let ghost none: Seq<Seq<char>> = Seq::empty();
        match action {
            EditorAction::GoToListing => {
                self.show_state(EditorState::Listing);
                assert(lists_dependents(m, a, none));
            },
            EditorAction::OpenAddBlockPrompt => {
                self.show_state(
                    EditorState::AddingABlock(
                        String::from_str("my_new_block"),
                        String::from_str("NewBlockKind"),
                    ),
                );
                assert(lists_dependents(m, a, none));
            },
            EditorAction::ConfirmAddBlock(aref, slot_kind) => {
                assert(lists_dependents(m, a, none));
                if model.exists_artifact(&ar(aref.as_str())) {
                    self.log(EditorLog::Error(msg3("Block ", aref.as_str(), " already exists")));
                    return;
                }
                let fresh = Block { main_slot_kind: sk(slot_kind.as_str()), slots: Assoc::new() };
                proof {
                    lemma_slot_map_view(&fresh.slots);
                    assert(slot_map_view(&fresh.slots) =~= Seq::<(Seq<char>, Seq<char>)>::empty());
                }
                model.set_artifact(ar(aref.as_str()), Artifact::Block(fresh));
                let mut text = msg3("Added block ", aref.as_str(), " with kind ");
                text.append(slot_kind.as_str());
                self.log(EditorLog::Info(text));
                self.show_state(EditorState::Listing);
            },
            EditorAction::SafelyDeleteArtifact(aref) => {
                if !model.exists_artifact(&aref) {
                    self.log(EditorLog::Error(msg3("Block ", aref.as_str(), " does not exists")));
                    assert(lists_dependents(m, a, none));
                    return;
                }
                let deps = model.dependents(&aref);
                let ghost ds = names(deps@);
                if deps.len() == 0 {
                    assert(ds.to_set() =~= Set::<Seq<char>>::empty());
                    model.remove_artifact(&aref);
                    self.log(EditorLog::Info(msg2("Removed ", aref.as_str())));
                    assert(lists_dependents(m, a, ds));
                } else {
                    assert(ds.to_set().contains(ds[0]));
                    let joined = comma_join_refs(&deps, deps.len());
                    assert(names(deps@).take(deps@.len() as int) =~= ds);
                    let mut text = msg3("Cannot delete ", aref.as_str(), ", because ");
                    text.append(joined.as_str());
                    text.append(" depends on it");
                    self.log(EditorLog::Error(text));
                    assert(lists_dependents(m, a, ds));
                }
            },
            EditorAction::OpenChangeBlockKindPrompt(aref) => {
                self.show_state(EditorState::ChangingBlockKind(aref, String::from_str("NewBlockKind")));
                assert(lists_dependents(m, a, none));
            },
            EditorAction::ConfirmChangeBlockKind(aref, new_block_kind) => {
                assert(lists_dependents(m, a, none));
                let block = match model.get_artifact(&aref) {
                    None => {
                        self.log(EditorLog::Error(msg3("Artifact ", aref.as_str(), " does not exists")));
                        return;
                    },
                    Some(Artifact::Structure(_)) => {
                        self.log(EditorLog::Error(msg3("Artifact ", aref.as_str(), " is not a block")));
                        return;
                    },
                    Some(Artifact::Block(block)) => block.clone(),
                };
                let slots = block.slots.copy();
                proof {
                    lemma_slot_map_view(&slots);
                    lemma_slot_map_view(&block.slots);
                    assert(slot_map_view(&slots) =~= slot_map_view(&block.slots));
                }
                let changed = Block { main_slot_kind: new_block_kind.key_clone(), slots };
                assert(Artifact::Block(changed)@ == kind_changed(m, aref@, new_block_kind@)[aref@]);
                model.set_artifact(aref.key_clone(), Artifact::Block(changed));
                assert(model.artifacts() =~= kind_changed(m, aref@, new_block_kind@));
                if !model.is_all_valid() {
                    self.log(EditorLog::Error(String::from_str("Changing block kind would invalidate model")));
                    let ghost bv = block@;
                    model.set_artifact(aref.key_clone(), Artifact::Block(block));
                    assert(model.artifacts() =~= m);
                    return;
                }
                let mut text = msg3("Changed ", aref.as_str(), " kind to ");
                text.append(new_block_kind.display().as_str());
                self.log(EditorLog::Info(text));
                self.show_state(EditorState::Listing);
            },
            EditorAction::OpenAddSlotToBlockPrompt(aref) => {
                self.show_state(
                    EditorState::AddingSlotToBlock(
                        aref,
                        String::from_str("slot_name"),
                        String::from_str("SlotKind"),
                    ),
                );
                assert(lists_dependents(m, a, none));
            },
            EditorAction::ConfirmAddSlotToBlock(aref, slot_name, slot_kind) => {
                assert(lists_dependents(m, a, none));
                let mut block = match model.get_artifact(&aref) {
                    None => {
                        self.log(EditorLog::Error(msg3("Artifact ", aref.as_str(), " does not exists")));
                        return;
                    },
                    Some(Artifact::Structure(_)) => {
                        self.log(EditorLog::Error(msg3("Artifact ", aref.as_str(), " is not a block")));
                        return;
                    },
                    Some(Artifact::Block(block)) => block.clone(),
                };
                proof {
                    lemma_slot_map_view(&block.slots);
                    let es = block.slots.entries();
                    let vs = slot_map_view(&block.slots);
                    if has_key(es, slot_name@) {
                        let i = choose|i: int| 0 <= i < es.len() && es[i].0 == slot_name@;
                        assert(vs[i].0 == slot_name@);
                    }
                    if has_key(vs, slot_name@) {
                        let i = choose|i: int| 0 <= i < vs.len() && vs[i].0 == slot_name@;
                        assert(es[i].0 == slot_name@);
                    }
                }
                if block.slots.contains_key(&slot_name) {
                    let mut text = msg2("Slot ", slot_name.display().as_str());
                    text.append(" already exists in ");
                    text.append(aref.as_str());
                    self.log(EditorLog::Error(text));
                    return;
                }
                let mut text = msg2("Added slot ", slot_name.display().as_str());
                text.append(" of kind ");
                text.append(slot_kind.display().as_str());
                text.append(" to ");
                text.append(aref.as_str());
                self.log(EditorLog::Info(text));
                let ghost before = block.slots;
                let ghost added = (slot_name@, slot_kind@);
                block.slots.insert(slot_name, slot_kind);
                proof {
                    lemma_slot_map_view(&before);
                    lemma_slot_map_view(&block.slots);
                    assert(slot_map_view(&block.slots) =~= slot_map_view(&before).push(added));
                }
                model.set_artifact(aref.key_clone(), Artifact::Block(block));
                self.show_state(EditorState::Listing);
            },
            EditorAction::OpenRenameBlockSlotPrompt(aref, slot_name) => {
                self.show_state(
                    EditorState::RenamingBlockSlot(aref, slot_name, String::from_str("new_slot_name")),
                );
                assert(lists_dependents(m, a, none));
            },
            EditorAction::ConfirmRenameBlockSlot(_, _, _) => {
                assert(false);
            },
        }
    }
}

/// The model after actions `acts`, in order.
pub open spec fn models_after(m: Map<Seq<char>, ArtifactV>, acts: Seq<EditorActionV>) -> Map<
    Seq<char>,
    ArtifactV,
>
    decreases acts.len(),
{
    if acts.len() == 0 {
        m
    } else {
        fulfilled_model(models_after(m, acts.drop_last()), acts.last())
    }
}

/// The editor after actions `acts`, in order; `dss[i]` lists the
/// dependents that stopped the deletion asked by `acts[i]`, if any.
pub open spec fn editor_after(
    e: EditorV,
    m: Map<Seq<char>, ArtifactV>,
    acts: Seq<EditorActionV>,
    dss: Seq<Seq<Seq<char>>>,
) -> EditorV
    decreases acts.len(),
{
    if acts.len() == 0 {
        e
    } else {
        fulfilled_editor(
            editor_after(e, m, acts.drop_last(), dss.drop_last()),
            models_after(m, acts.drop_last()),
            acts.last(),
            dss.last(),
        )
    }
}

/// Each action of `acts` can be fulfilled on the model that the actions
/// before it leave.
pub open spec fn can_fulfill_all(m: Map<Seq<char>, ArtifactV>, acts: Seq<EditorActionV>) -> bool {
    forall|i: int| 0 <= i < acts.len() ==> can_fulfill(models_after(m, acts.take(i)), #[trigger] acts[i])
}

pub open spec fn all_listed(m: Map<Seq<char>, ArtifactV>, acts: Seq<EditorActionV>, dss: Seq<Seq<Seq<char>>>) -> bool {
    &&& dss.len() == acts.len()
    &&& forall|i: int|
        0 <= i < acts.len() ==> lists_dependents(models_after(m, acts.take(i)), #[trigger] acts[i], dss[i])
}

impl ModelEditor {
    /// Fulfills the pending actions, in the order in which they came, and
    /// leaves none pending.
    pub fn fullfill_actions(&mut self, model: &mut InMemoryModel)
        requires
            can_fulfill_all(old(model).artifacts(), old(self)@.pending_actions),
        ensures
            final(model).artifacts() == models_after(old(model).artifacts(), old(self)@.pending_actions),
            exists|dss: Seq<Seq<Seq<char>>>|
                all_listed(old(model).artifacts(), old(self)@.pending_actions, dss) && final(self)@
                    == editor_after(
                    EditorV { pending_actions: Seq::empty(), ..old(self)@ },
                    old(model).artifacts(),
                    old(self)@.pending_actions,
                    dss,
                ),
    {
        let ghost m0 = model.artifacts();
        let ghost acts = old(self)@.pending_actions;
        let mut rest: Vec<EditorAction> = Vec::new();
        std::mem::swap(&mut rest, &mut self.context.pending_actions);
        let ghost e0 = self@;
        assert(actions_view(self.context.pending_actions@) =~= Seq::<EditorActionV>::empty());
        assert(e0 == EditorV { pending_actions: Seq::<EditorActionV>::empty(), ..old(self)@ });
        let ghost mut dss: Seq<Seq<Seq<char>>> = Seq::empty();
        let ghost mut done: int = 0;
        assert(acts.take(0) =~= Seq::<EditorActionV>::empty());
        while rest.len() > 0
            invariant
                0 <= done <= acts.len(),
                actions_view(rest@) == acts.skip(done),
                can_fulfill_all(m0, acts),
                model.artifacts() == models_after(m0, acts.take(done)),
                all_listed(m0, acts.take(done), dss),
                self@ == editor_after(e0, m0, acts.take(done), dss),
            decreases rest@.len(),
        {
            let ghost before = rest@;
            assert(acts.skip(done).len() == acts.len() - done);
            assert(actions_view(before).len() == before.len());
            assert(done < acts.len());
            let action = rest.remove(0);
            assert(action@ == acts[done]) by {
                assert(before.len() > 0);
                assert(actions_view(before).len() == before.len());
                assert(actions_view(before)[0] == before[0]@);
                assert(acts.skip(done).len() > 0);
                assert(acts.skip(done)[0] == acts[done]);
                assert(action == before[0]);
            }
            assert(actions_view(rest@) =~= acts.skip(done + 1)) by {
                assert(rest@ =~= before.subrange(1, before.len() as int));
                assert(actions_view(rest@).len() == acts.skip(done + 1).len());
                assert forall|k: int| 0 <= k < rest@.len() implies actions_view(rest@)[k] == acts.skip(done + 1)[k] by {
                    assert(rest@[k] == before[k + 1]);
                    assert(actions_view(rest@)[k] == rest@[k]@);
                    assert(actions_view(before)[k + 1] == before[k + 1]@);
                    assert(actions_view(before)[k + 1] == acts.skip(done)[k + 1]);
                    assert(acts.skip(done)[k + 1] == acts[done + k + 1]);
                    assert(acts.skip(done + 1)[k] == acts[done + 1 + k]);
                }
            }
            assert(can_fulfill(models_after(m0, acts.take(done)), acts[done]));
            let ghost e1 = self@;
            let ghost m1 = model.artifacts();
            self.fullfill_action(model, action);
            proof {
                let ds = choose|ds: Seq<Seq<char>>|
                    lists_dependents(m1, acts[done], ds) && self@ == fulfilled_editor(e1, m1, acts[done], ds);
                let next = acts.take(done + 1);
                assert(next.drop_last() =~= acts.take(done));
                assert(next.last() == acts[done]);
                let ndss = dss.push(ds);
                assert(ndss.drop_last() =~= dss);
                assert forall|i: int| 0 <= i < next.len() implies lists_dependents(
                    models_after(m0, next.take(i)),
                    #[trigger] next[i],
                    ndss[i],
                ) by {
                    if i < done {
                        assert(next.take(i) =~= acts.take(done).take(i));
                        assert(next[i] == acts.take(done)[i]);
                    } else {
                        assert(next.take(i) =~= acts.take(done));
                    }
                }
                dss = ndss;
                done = done + 1;
            }
        }
        assert(acts.take(done) =~= acts);
    }
}

/// Adding slot `s` of kind `k` to block `r` gives the block that slot with
/// the kind asked, and leaves its main kind, its other slots and every
/// other artifact as they were. Where `r` is missing, is a structure, or
/// already has a slot `s`, the model is left as it is.
pub proof fn lemma_add_slot_gives_the_kind_asked(
    m: Map<Seq<char>, ArtifactV>,
    r: Seq<char>,
    s: Seq<char>,
    k: Seq<char>,
)
    requires
        m.contains_key(r) && m[r] is Block ==> keys_unique(m[r]->Block_0.slots),
    ensures
        ({
            let m2 = fulfilled_model(m, EditorActionV::ConfirmAddSlotToBlock(r, s, k));
            &&& m.contains_key(r) && m[r] is Block && !has_key(m[r]->Block_0.slots, s) ==> {
                &&& m2.dom() == m.dom()
                &&& m2[r] is Block
                &&& m2[r]->Block_0.main_slot_kind == m[r]->Block_0.main_slot_kind
                &&& map_of(m2[r]->Block_0.slots) == map_of(m[r]->Block_0.slots).insert(s, k)
                &&& forall|x: Seq<char>| x != r && m.contains_key(x) ==> #[trigger] m2[x] == m[x]
            }
            &&& !(m.contains_key(r) && m[r] is Block && !has_key(m[r]->Block_0.slots, s)) ==> m2 == m
        }),
{
    if m.contains_key(r) && m[r] is Block && !has_key(m[r]->Block_0.slots, s) {
        lemma_insert_entry(m[r]->Block_0.slots, s, k);
        let m2 = fulfilled_model(m, EditorActionV::ConfirmAddSlotToBlock(r, s, k));
        assert(m2.dom() =~= m.dom());
    }
}

/// Adding block `r` of kind `k` to a model that has no artifact `r` gives
/// it a block `r` of that kind with no slots, and leaves every other
/// artifact as it was; where `r` is taken, the model is left as it is.
pub proof fn lemma_add_block_law(m: Map<Seq<char>, ArtifactV>, r: Seq<char>, k: Seq<char>)
    ensures
        ({
            let m2 = fulfilled_model(m, EditorActionV::ConfirmAddBlock(r, k));
            &&& !m.contains_key(r) ==> {
                &&& m2.dom() == m.dom().insert(r)
                &&& m2[r] == ArtifactV::Block(BlockV { main_slot_kind: k, slots: Seq::empty() })
                &&& forall|x: Seq<char>| x != r && m.contains_key(x) ==> #[trigger] m2[x] == m[x]
            }
            &&& m.contains_key(r) ==> m2 == m
        }),
{
    let m2 = fulfilled_model(m, EditorActionV::ConfirmAddBlock(r, k));
    if !m.contains_key(r) {
        assert(m2.dom() =~= m.dom().insert(r));
    }
}

/// Deleting artifact `r` removes it exactly when it is there and nothing is
/// built on it, directly or not; every other artifact is left as it was.
pub proof fn lemma_delete_law(m: Map<Seq<char>, ArtifactV>, r: Seq<char>)
    ensures
        ({
            let m2 = fulfilled_model(m, EditorActionV::SafelyDeleteArtifact(r));
            &&& m2.contains_key(r) == (m.contains_key(r) && !dependents_spec(m, r).is_empty())
            &&& forall|x: Seq<char>| x != r ==> (#[trigger] m2.contains_key(x) == m.contains_key(x))
            &&& forall|x: Seq<char>| x != r && m.contains_key(x) ==> #[trigger] m2[x] == m[x]
        }),
{
}

} // verus!
