use vstd::prelude::*;
use crate::path::{views, join_dots, valid_path, same_text, join_range, check_path, copy_strings};
use crate::store::{BasicConstructDB, EntryView, KbError, in_subtree};
use crate::json::{json_string_literal, json_object_text, member_views, object_text_of, quote};

verus! {

/// Failures of the construction protocol.
#[derive(Debug)]
pub enum ConstructMemError {
    Basic(KbError),
    NoWorkingKB,
    KBAlreadyExists(String),
    KBNotFound(String),
    PathAlreadyExists(String),
    InvalidNodeData,
    PathEmpty,
    NotEnoughElements,
    AssertionError(String),
    InstallationCheckFailed(String),
}

/// The text that describes a failure of the construction protocol.
pub open spec fn construct_error_text(e: ConstructMemError) -> Seq<char> {
    match e {
        ConstructMemError::Basic(b) => "Basic DB error: "@ + crate::store::kb_error_text(b),
        ConstructMemError::NoWorkingKB => "No working knowledge base selected"@,
        ConstructMemError::KBAlreadyExists(n) => "Knowledge base "@ + n@ + " already exists"@,
        ConstructMemError::KBNotFound(n) => "Knowledge base "@ + n@ + " does not exist"@,
        ConstructMemError::PathAlreadyExists(p) => "Path "@ + p@ + " already exists in knowledge base"@,
        ConstructMemError::InvalidNodeData => "nodeData must be a dictionary"@,
        ConstructMemError::PathEmpty => "Cannot leave a header node: path is empty"@,
        ConstructMemError::NotEnoughElements => "Cannot leave a header node: not enough elements in path"@,
        ConstructMemError::AssertionError(m) => "Assertion error: "@ + m@,
        ConstructMemError::InstallationCheckFailed(m) => "Installation check failed: "@ + m@,
    }
}

impl ConstructMemError {
    /// The text that describes the failure.
    pub fn message(&self) -> (r: String)
        ensures
            r@ == construct_error_text(*self),
    {
        match self {
            ConstructMemError::Basic(b) => {
                let mut r = "Basic DB error: ".to_owned();
                r.append(b.message().as_str());
                r
            },
            ConstructMemError::NoWorkingKB => "No working knowledge base selected".to_owned(),
            ConstructMemError::KBAlreadyExists(n) => {
                let mut r = "Knowledge base ".to_owned();
                r.append(n.as_str());
                r.append(" already exists");
                r
            },
            ConstructMemError::KBNotFound(n) => {
                let mut r = "Knowledge base ".to_owned();
                r.append(n.as_str());
                r.append(" does not exist");
                r
            },
            ConstructMemError::PathAlreadyExists(p) => {
                let mut r = "Path ".to_owned();
                r.append(p.as_str());
                r.append(" already exists in knowledge base");
                r
            },
            ConstructMemError::InvalidNodeData => "nodeData must be a dictionary".to_owned(),
            ConstructMemError::PathEmpty => "Cannot leave a header node: path is empty".to_owned(),
            ConstructMemError::NotEnoughElements => "Cannot leave a header node: not enough elements in path".to_owned(),
            ConstructMemError::AssertionError(m) => {
                let mut r = "Assertion error: ".to_owned();
                r.append(m.as_str());
                r
            },
            ConstructMemError::InstallationCheckFailed(m) => {
                let mut r = "Installation check failed: ".to_owned();
                r.append(m.as_str());
                r
            },
        }
    }
}

/// Construction state of one knowledge base: its open scopes and every full
/// path it has opened.
struct KbState {
    name: String,
    stack: Vec<String>,
    used: Vec<String>,
}

/// What the construction state of a knowledge base holds.
pub struct KbStateView {
    pub name: Seq<char>,
    pub stack: Seq<Seq<char>>,
    pub used: Seq<Seq<char>>,
}

impl View for KbState {
    type V = KbStateView;

    closed spec fn view(&self) -> KbStateView {
        KbStateView { name: self.name@, stack: views(self.stack@), used: views(self.used@) }
    }
}

pub open spec fn description_key() -> Seq<char> {
    seq!['d', 'e', 's', 'c', 'r', 'i', 'p', 't', 'i', 'o', 'n']
}

/// The members of a node, with a non-empty description added last as a JSON
/// string (so that it replaces any member named `description`).
pub open spec fn with_description(ms: Seq<(Seq<char>, Seq<char>)>, description: Option<Seq<char>>) -> Seq<(Seq<char>, Seq<char>)> {
    match description {
        Some(d) => if d.len() > 0 {
            ms.push((description_key(), json_string_literal(d)))
        } else {
            ms
        },
        None => ms,
    }
}

/// The stored value of a node: the JSON object of its members; none when a
/// member value is not JSON.
pub open spec fn node_value(node_data: Seq<(String, String)>, description: Option<String>) -> Option<Seq<char>> {
    json_object_text(with_description(member_views(node_data), match description {
        Some(d) => Some(d@),
        None => None,
    }))
}

/// The full path that opening `link`, `name` on top of `stack` gives.
pub open spec fn opened_path(stack: Seq<Seq<char>>, link: Seq<char>, name: Seq<char>) -> Seq<char> {
    join_dots(stack.push(link).push(name))
}

/// The entry a node stores.
pub open spec fn node_entry(path: Seq<char>, data: Seq<char>) -> EntryView {
    EntryView { path, data, created_at: None, updated_at: None }
}

/// Knowledge bases built as nested scopes on a path store.
pub struct ConstructMemDB {
    basic_db: BasicConstructDB,
    working_kb: Option<String>,
    kbs: Vec<KbState>,
    links: Vec<(String, String, String)>,
    mounts: Vec<(String, String, String, String)>,
}

impl ConstructMemDB {
    /// The construction state of every knowledge base, in order of addition.
    pub closed spec fn states(&self) -> Seq<KbStateView> {
        self.kbs@.map_values(|k: KbState| k@)
    }

    /// Names of the tracked knowledge bases.
    pub open spec fn names(&self) -> Seq<Seq<char>> {
        self.states().map_values(|k: KbStateView| k.name)
    }

    /// Links recorded so far: knowledge base, full path, link name.
    pub closed spec fn links(&self) -> Seq<(Seq<char>, Seq<char>, Seq<char>)> {
        self.links@.map_values(|l: (String, String, String)| (l.0@, l.1@, l.2@))
    }

    /// Link mounts recorded so far: knowledge base, full path, mount name, description.
    pub closed spec fn mounts(&self) -> Seq<(Seq<char>, Seq<char>, Seq<char>, Seq<char>)> {
        self.mounts@.map_values(|m: (String, String, String, String)| (m.0@, m.1@, m.2@, m.3@))
    }

    /// The selected knowledge base.
    pub closed spec fn working(&self) -> Option<Seq<char>> {
        match self.working_kb {
            Some(w) => Some(w@),
            None => None,
        }
    }

    /// The path store underneath.
    pub closed spec fn db(&self) -> BasicConstructDB {
        self.basic_db
    }

    /// Position of the knowledge base `name`; names are distinct, so there is
    /// one for every tracked name (see `lemma_tracked`).
    pub open spec fn pos(&self, name: Seq<char>) -> int {
        choose|i: int| 0 <= i < self.states().len() && self.states()[i].name == name
    }

    /// Open scopes of the knowledge base `name`.
    pub open spec fn stack_of(&self, name: Seq<char>) -> Seq<Seq<char>> {
        self.states()[self.pos(name)].stack
    }

    /// Full paths the knowledge base `name` has opened.
    pub open spec fn used_of(&self, name: Seq<char>) -> Seq<Seq<char>> {
        self.states()[self.pos(name)].used
    }

    /// Every tracked knowledge base other than `w` has the same stack and the
    /// same used paths in `self` as in `other`.
    pub open spec fn others_kept(&self, other: Self, w: Seq<char>) -> bool {
        forall|k: Seq<char>| #[trigger] other.names().contains(k) && k != w ==> {
            &&& self.names().contains(k)
            &&& self.stack_of(k) == other.stack_of(k)
            &&& self.used_of(k) == other.used_of(k)
        }
    }

    /// Names are distinct, each stack holds its knowledge base's name and then
    /// pairs of labels, the selected knowledge base is tracked, and the path
    /// store records exactly the tracked knowledge bases.
    pub closed spec fn wf(&self) -> bool {
        &&& self.basic_db.wf()
        &&& forall|x: Seq<char>|
            #![trigger self.basic_db.kb_names().contains(x)]
            #![trigger self.names().contains(x)]
            self.basic_db.kb_names().contains(x) <==> self.names().contains(x)
        &&& forall|i: int, j: int| 0 <= i < j < self.states().len() ==> (#[trigger] self.states()[i]).name != (#[trigger] self.states()[j]).name
        &&& forall|i: int| 0 <= i < self.states().len() ==> {
            let s = #[trigger] self.states()[i];
            s.stack.len() >= 1 && s.stack.len() % 2 == 1 && s.stack[0] == s.name
        }
        &&& forall|w: Seq<char>| self.working() == Some(w) ==> self.names().contains(w)
    }

    /// A tracked knowledge base has a position, and its stack begins with its
    /// name followed by pairs of labels.
    pub proof fn lemma_tracked(&self, name: Seq<char>)
        requires
            self.wf(),
            self.names().contains(name),
        ensures
            0 <= self.pos(name) < self.states().len(),
            self.states()[self.pos(name)].name == name,
            self.stack_of(name).len() >= 1,
            self.stack_of(name).len() % 2 == 1,
            self.stack_of(name)[0] == name,
    {
        let k = choose|k: int| 0 <= k < self.names().len() && self.names()[k] == name;
        assert(self.states()[k].name == name);
    }

    /// Tracked names are distinct and the selected knowledge base is tracked.
    pub proof fn lemma_wf(&self)
        requires
            self.wf(),
        ensures
            forall|i: int, j: int| 0 <= i < j < self.names().len() ==> self.names()[i] != self.names()[j],
            forall|w: Seq<char>| self.working() == Some(w) ==> self.names().contains(w),
    {
        assert forall|i: int, j: int| 0 <= i < j < self.names().len() implies self.names()[i] != self.names()[j] by {
            assert(self.states()[i].name != self.states()[j].name);
        }
    }

    proof fn lemma_views(&self)
        ensures
            self.states().len() == self.kbs@.len(),
            self.names().len() == self.kbs@.len(),
            forall|i: int| 0 <= i < self.kbs@.len() ==> #[trigger] self.states()[i] == self.kbs@[i]@,
            forall|i: int| 0 <= i < self.kbs@.len() ==> #[trigger] self.names()[i] == self.states()[i].name,
    {
    }

    proof fn lemma_pos(&self, i: int)
        requires
            self.wf(),
            0 <= i < self.states().len(),
        ensures
            self.pos(self.states()[i].name) == i,
    {
        let name = self.states()[i].name;
        let j = self.pos(name);
        assert(0 <= j < self.states().len() && self.states()[j].name == name);
        if j < i {
            assert(self.states()[j].name != self.states()[i].name);
        } else if j > i {
            assert(self.states()[i].name != self.states()[j].name);
        }
    }

    pub fn new(host: String, port: u16, dbname: String, user: String, password: String, database: String) -> (r: Self)
        ensures
            r.wf(),
            r.states().len() == 0,
            r.working() is None,
            r.db()@ == Map::<Seq<char>, EntryView>::empty(),
    {
        let basic_db = BasicConstructDB::new(host, port, dbname, user, password, database);
        proof {
            crate::store::lemma_to_map(basic_db.entries());
        }
        let r = ConstructMemDB { basic_db, working_kb: None, kbs: Vec::new(), links: Vec::new(), mounts: Vec::new() };
        proof {
            assert(r.states() =~= Seq::<KbStateView>::empty());
            assert(r.db()@ =~= Map::<Seq<char>, EntryView>::empty());
        }
        r
    }

    /// Position of the knowledge base named `name`, if tracked.
    fn find_kb(&self, name: &str) -> (r: Option<usize>)
        requires
            self.wf(),
        ensures
            match r {
                Some(i) => i < self.states().len() && self.states()[i as int].name == name@ && self.pos(name@) == i
                    && self.names().contains(name@),
                None => !self.names().contains(name@),
            },
    {
        proof {
            self.lemma_views();
        }
        let mut i: usize = 0;
        while i < self.kbs.len()
            invariant
                self.wf(),
                i <= self.kbs@.len(),
                forall|k: int| 0 <= k < i ==> self.states()[k].name != name@,
            decreases self.kbs@.len() - i,
        {
            if same_text(self.kbs[i].name.as_str(), name) {
                proof {
                    self.lemma_pos(i as int);
                    assert(self.names()[i as int] == name@);
                }
                return Some(i);
            }
            i = i + 1;
        }
        proof {
            if self.names().contains(name@) {
                let k = choose|k: int| 0 <= k < self.names().len() && self.names()[k] == name@;
                assert(self.states()[k].name == name@);
            }
        }
        None
    }

    /// Starts tracking a knowledge base with its stack holding its name alone,
    /// and records it in the path store; fails, changing nothing, when one of
    /// that name is tracked.
    pub fn add_kb(&mut self, kb_name: String, description: String) -> (r: Result<(), ConstructMemError>)
        requires
            old(self).wf(),
        ensures
            final(self).wf(),
            final(self).working() == old(self).working(),
            final(self).db()@ == old(self).db()@,
            old(self).names().contains(kb_name@) ==> r is Err && r->Err_0 is KBAlreadyExists
                && r->Err_0->KBAlreadyExists_0@ == kb_name@ && final(self).states() == old(self).states(),
            !old(self).names().contains(kb_name@) ==> r is Ok
                && final(self).states() == old(self).states().push(KbStateView {
                    name: kb_name@,
                    stack: seq![kb_name@],
                    used: Seq::<Seq<char>>::empty(),
                })
                && final(self).names() == old(self).names().push(kb_name@)
                && final(self).stack_of(kb_name@) == seq![kb_name@]
                && final(self).used_of(kb_name@) == Seq::<Seq<char>>::empty()
                && final(self).others_kept(*old(self), kb_name@),
    {
        if self.find_kb(kb_name.as_str()).is_some() {
            return Err(ConstructMemError::KBAlreadyExists(kb_name));
        }
        match self.basic_db.add_kb(kb_name.as_str(), description.as_str()) {
            Err(e) => {
                proof {
                    assert(false);
                }
                return Err(ConstructMemError::Basic(e));
            },
            Ok(()) => {},
        }
        let mut stack: Vec<String> = Vec::new();
        stack.push(kb_name.clone());
        let st = KbState { name: kb_name, stack, used: Vec::new() };
        proof {
            assert(views(st.stack@) =~= seq![st.name@]);
            assert(views(st.used@) =~= Seq::<Seq<char>>::empty());
        }
        let ghost before = self.states();
        self.kbs.push(st);
        proof {
            old(self).lemma_views();
            self.lemma_views();
            assert(self.states() =~= before.push(st@));
            assert(self.names() =~= old(self).names().push(st.name@));
            assert forall|w: Seq<char>| self.working() == Some(w) implies self.names().contains(w) by {
                assert(old(self).working() == Some(w));
                assert(old(self).names().contains(w));
                let k = choose|k: int| 0 <= k < old(self).names().len() && old(self).names()[k] == w;
                assert(self.names()[k] == w);
            }
            assert forall|i: int, j: int| 0 <= i < j < self.states().len() implies (#[trigger] self.states()[i]).name != (#[trigger] self.states()[j]).name by {
                if j == self.states().len() - 1 {
                    assert(old(self).names()[i] == self.states()[i].name);
                }
            }
            assert forall|x: Seq<char>| self.basic_db.kb_names().contains(x) <==> self.names().contains(x) by {
                if x == kb_name@ {
                    assert(self.names()[self.names().len() - 1] == x);
                    assert(self.basic_db.kb_names()[self.basic_db.kb_names().len() - 1] == x);
                } else {
                    if self.basic_db.kb_names().contains(x) {
                        let k = choose|k: int| 0 <= k < self.basic_db.kb_names().len() && self.basic_db.kb_names()[k] == x;
                        assert(old(self).basic_db.kb_names()[k] == x);
                        assert(old(self).names().contains(x));
                        let q = choose|q: int| 0 <= q < old(self).names().len() && old(self).names()[q] == x;
                        assert(self.names()[q] == x);
                    }
                    if self.names().contains(x) {
                        let k = choose|k: int| 0 <= k < self.names().len() && self.names()[k] == x;
                        assert(old(self).names()[k] == x);
                        assert(old(self).basic_db.kb_names().contains(x));
                        let q = choose|q: int| 0 <= q < old(self).basic_db.kb_names().len() && old(self).basic_db.kb_names()[q] == x;
                        assert(self.basic_db.kb_names()[q] == x);
                    }
                }
            }
            lemma_push_state(*old(self), *self, st@);
        }
        Ok(())
    }

    /// Selects the knowledge base that later calls work on.
    pub fn select_kb(&mut self, kb_name: String) -> (r: Result<(), ConstructMemError>)
        requires
            old(self).wf(),
        ensures
            final(self).wf(),
            final(self).states() == old(self).states(),
            final(self).db() == old(self).db(),
            r is Ok <==> old(self).names().contains(kb_name@),
            r is Err ==> r->Err_0 is KBNotFound && r->Err_0->KBNotFound_0@ == kb_name@
                && final(self).working() == old(self).working(),
            r is Ok ==> final(self).working() == Some(kb_name@),
    {
        if self.find_kb(kb_name.as_str()).is_none() {
            return Err(ConstructMemError::KBNotFound(kb_name));
        }
        self.working_kb = Some(kb_name);
        proof {
            self.lemma_views();
            old(self).lemma_views();
        }
        Ok(())
    }

    /// Opens a scope `link`, `node_name` in the selected knowledge base and
    /// stores the node's value at the full path. Fails, changing nothing, when no
    /// knowledge base is selected, when the full path was opened before in it, or
    /// when the full path is malformed.
    pub fn add_header_node(&mut self, link: String, node_name: String, node_data: Vec<(String, String)>, description: Option<String>) -> (r: Result<(), ConstructMemError>)
        requires
            old(self).wf(),
        ensures
            final(self).wf(),
            final(self).working() == old(self).working(),
            final(self).names() == old(self).names(),
            old(self).working() is None ==> r is Err && r->Err_0 is NoWorkingKB && final(self).states() == old(self).states() && final(self).db()@ == old(self).db()@,
            old(self).working() matches Some(w) ==> {
                let st = old(self).stack_of(w);
                let full = opened_path(st, link@, node_name@);
                let value = node_value(node_data@, description);
                &&& old(self).used_of(w).contains(full) ==> r is Err && r->Err_0 is PathAlreadyExists
                    && r->Err_0->PathAlreadyExists_0@ == full
                    && final(self).states() == old(self).states() && final(self).db()@ == old(self).db()@
                &&& !old(self).used_of(w).contains(full) && !valid_path(full) ==> r is Err && r->Err_0 is Basic
                    && r->Err_0->Basic_0 is InvalidPath && r->Err_0->Basic_0->InvalidPath_0@ == full
                    && final(self).states() == old(self).states() && final(self).db()@ == old(self).db()@
                &&& !old(self).used_of(w).contains(full) && valid_path(full) && value is None ==> r is Err
                    && r->Err_0 is InvalidNodeData
                    && final(self).states() == old(self).states() && final(self).db()@ == old(self).db()@
                &&& !old(self).used_of(w).contains(full) && valid_path(full) && value is Some ==> r is Ok
                    && final(self).states() == old(self).states().update(old(self).pos(w), KbStateView {
                        name: w,
                        stack: st.push(link@).push(node_name@),
                        used: old(self).used_of(w).push(full),
                    })
                    && final(self).stack_of(w) == st.push(link@).push(node_name@)
                    && final(self).used_of(w) == old(self).used_of(w).push(full)
                    && final(self).others_kept(*old(self), w)
                    && final(self).db()@ == old(self).db()@.insert(full, node_entry(full, value->0))
            },
    {
        let ghost (l, n) = (link@, node_name@);
        let r = self.open_scope(link, node_name, node_data, description, true);
        proof {
            match old(self).working() {
                Some(w) => {
                    if r is Ok {
                        old(self).lemma_wf();
                        old(self).lemma_tracked(w);
                        let st = old(self).stack_of(w);
                        let full = opened_path(st, l, n);
                        lemma_update_state(*old(self), *self, old(self).pos(w), KbStateView {
                            name: w,
                            stack: st.push(l).push(n),
                            used: old(self).used_of(w).push(full),
                        });
                    }
                },
                None => {},
            }
        }
        r
    }

    /// Opens and at once closes a scope: stores the node like `add_header_node`
    /// and leaves the stack as it was.
    pub fn add_info_node(&mut self, link: String, node_name: String, node_data: Vec<(String, String)>, description: Option<String>) -> (r: Result<(), ConstructMemError>)
        requires
            old(self).wf(),
        ensures
            final(self).wf(),
            final(self).working() == old(self).working(),
            final(self).names() == old(self).names(),
            old(self).working() is None ==> r is Err && r->Err_0 is NoWorkingKB && final(self).states() == old(self).states() && final(self).db()@ == old(self).db()@,
            old(self).working() matches Some(w) ==> {
                let st = old(self).stack_of(w);
                let full = opened_path(st, link@, node_name@);
                let value = node_value(node_data@, description);
                &&& old(self).used_of(w).contains(full) ==> r is Err && r->Err_0 is PathAlreadyExists
                    && r->Err_0->PathAlreadyExists_0@ == full
                    && final(self).states() == old(self).states() && final(self).db()@ == old(self).db()@
                &&& !old(self).used_of(w).contains(full) && !valid_path(full) ==> r is Err && r->Err_0 is Basic
                    && r->Err_0->Basic_0 is InvalidPath && r->Err_0->Basic_0->InvalidPath_0@ == full
                    && final(self).states() == old(self).states() && final(self).db()@ == old(self).db()@
                &&& !old(self).used_of(w).contains(full) && valid_path(full) && value is None ==> r is Err
                    && r->Err_0 is InvalidNodeData
                    && final(self).states() == old(self).states() && final(self).db()@ == old(self).db()@
                &&& !old(self).used_of(w).contains(full) && valid_path(full) && value is Some ==> r is Ok
                    && final(self).states() == old(self).states().update(old(self).pos(w), KbStateView {
                        name: w,
                        stack: st,
                        used: old(self).used_of(w).push(full),
                    })
                    && final(self).stack_of(w) == st
                    && final(self).used_of(w) == old(self).used_of(w).push(full)
                    && final(self).others_kept(*old(self), w)
                    && final(self).db()@ == old(self).db()@.insert(full, node_entry(full, value->0))
            },
    {
        let ghost (l, n) = (link@, node_name@);
        let r = self.open_scope(link, node_name, node_data, description, false);
        proof {
            match old(self).working() {
                Some(w) => {
                    if r is Ok {
                        old(self).lemma_wf();
                        old(self).lemma_tracked(w);
                        let st = old(self).stack_of(w);
                        let full = opened_path(st, l, n);
                        lemma_update_state(*old(self), *self, old(self).pos(w), KbStateView {
                            name: w,
                            stack: st,
                            used: old(self).used_of(w).push(full),
                        });
                    }
                },
                None => {},
            }
        }
        r
    }

    /// Shared body of `add_header_node` (`keep` set) and `add_info_node`.
    fn open_scope(&mut self, link: String, node_name: String, node_data: Vec<(String, String)>, description: Option<String>, keep: bool) -> (r: Result<(), ConstructMemError>)
        requires
            old(self).wf(),
        ensures
            final(self).wf(),
            final(self).working() == old(self).working(),
            final(self).names() == old(self).names(),
            old(self).working() is None ==> r is Err && r->Err_0 is NoWorkingKB && final(self).states() == old(self).states() && final(self).db()@ == old(self).db()@,
            old(self).working() matches Some(w) ==> {
                let st = old(self).stack_of(w);
                let full = opened_path(st, link@, node_name@);
                let value = node_value(node_data@, description);
                &&& old(self).used_of(w).contains(full) ==> r is Err && r->Err_0 is PathAlreadyExists
                    && r->Err_0->PathAlreadyExists_0@ == full
                    && final(self).states() == old(self).states() && final(self).db()@ == old(self).db()@
                &&& !old(self).used_of(w).contains(full) && !valid_path(full) ==> r is Err && r->Err_0 is Basic
                    && r->Err_0->Basic_0 is InvalidPath && r->Err_0->Basic_0->InvalidPath_0@ == full
                    && final(self).states() == old(self).states() && final(self).db()@ == old(self).db()@
                &&& !old(self).used_of(w).contains(full) && valid_path(full) && value is None ==> r is Err
                    && r->Err_0 is InvalidNodeData
                    && final(self).states() == old(self).states() && final(self).db()@ == old(self).db()@
                &&& !old(self).used_of(w).contains(full) && valid_path(full) && value is Some ==> r is Ok
                    && final(self).states() == old(self).states().update(old(self).pos(w), KbStateView {
                        name: w,
                        stack: if keep { st.push(link@).push(node_name@) } else { st },
                        used: old(self).used_of(w).push(full),
                    })
                    && final(self).db()@ == old(self).db()@.insert(full, node_entry(full, value->0))
            },
    {
        let w = match &self.working_kb {
            None => {
                return Err(ConstructMemError::NoWorkingKB);
            },
            Some(w) => w.clone(),
        };
        let idx = match self.find_kb(w.as_str()) {
            None => {
                proof {
                    assert(false);
                }
                return Err(ConstructMemError::KBNotFound(w));
            },
            Some(i) => i,
        };
        let ghost st = self.states()[idx as int].stack;
        let ghost used = self.states()[idx as int].used;
        let mut labels = copy_strings(&self.kbs[idx].stack);
        let ghost before_push = views(labels@);
        labels.push(link.clone());
        labels.push(node_name.clone());
        let full = join_range(&labels, 0, labels.len());
        proof {
            assert(before_push =~= st);
            assert(views(labels@).subrange(0, labels@.len() as int) =~= st.push(link@).push(node_name@));
        }
        let mut u: usize = 0;
        while u < self.kbs[idx].used.len()
            invariant
                self.wf(),
                self.states() == old(self).states(),
                self.db() == old(self).db(),
                self.working() == old(self).working(),
                old(self).working() == Some(w@),
                self.pos(w@) == idx,
                self.states()[idx as int].name == w@,
                st == self.states()[idx as int].stack,
                used == self.states()[idx as int].used,
                full@ == opened_path(st, link@, node_name@),
                idx < self.kbs@.len(),
                used == views(self.kbs@[idx as int].used@),
                u <= used.len(),
                forall|q: int| 0 <= q < u ==> used[q] != full@,
            decreases used.len() - u,
        {
            if same_text(self.kbs[idx].used[u].as_str(), full.as_str()) {
                proof {
                    assert(used[u as int] == full@);
                    assert(used.contains(full@));
                }
                return Err(ConstructMemError::PathAlreadyExists(full));
            }
            u = u + 1;
        }
        if !check_path(full.as_str()) {
            return Err(ConstructMemError::Basic(KbError::InvalidPath(full)));
        }
        let value = match node_text(&node_data, &description) {
            Some(v) => v,
            None => {
                return Err(ConstructMemError::InvalidNodeData);
            },
        };
        let res = self.basic_db.store(full.as_str(), value, None, None);
        proof {
            assert(res is Ok);
        }
        let ghost old_states = self.states();
        if keep {
            self.kbs[idx].stack.push(link);
            self.kbs[idx].stack.push(node_name);
        }
        self.kbs[idx].used.push(full);
        proof {
            let nv = KbStateView {
                name: w@,
                stack: if keep { st.push(link@).push(node_name@) } else { st },
                used: used.push(full@),
            };
            assert(self.kbs@[idx as int]@.stack =~= nv.stack);
            assert(self.kbs@[idx as int]@.used =~= nv.used);
            assert(self.states() =~= old_states.update(idx as int, nv));
            assert(self.names() =~= old(self).names());
            assert forall|w2: Seq<char>| self.working() == Some(w2) implies self.names().contains(w2) by {
                assert(old(self).names().contains(w2));
            }
            assert forall|i: int, j: int| 0 <= i < j < self.states().len() implies (#[trigger] self.states()[i]).name != (#[trigger] self.states()[j]).name by {
                assert(self.states()[i].name == old_states[i].name);
                assert(self.states()[j].name == old_states[j].name);
            }
            assert forall|i: int| 0 <= i < self.states().len() implies {
                let s = #[trigger] self.states()[i];
                s.stack.len() >= 1 && s.stack.len() % 2 == 1 && s.stack[0] == s.name
            } by {
                if i == idx {
                    assert(old_states[i].stack[0] == old_states[i].name);
                    assert(self.states()[i].stack[0] == st[0]);
                }
            }
        }
        Ok(())
    }

    /// Closes the innermost scope of the selected knowledge base, which must be
    /// `label`, `name`. Fails, changing nothing, when no knowledge base is
    /// selected, when only its name is on the stack, or when the innermost scope
    /// differs.
    pub fn leave_header_node(&mut self, label: String, name: String) -> (r: Result<(), ConstructMemError>)
        requires
            old(self).wf(),
        ensures
            final(self).wf(),
            final(self).working() == old(self).working(),
            final(self).names() == old(self).names(),
            final(self).db() == old(self).db(),
            old(self).working() is None ==> r is Err && r->Err_0 is NoWorkingKB && final(self).states() == old(self).states(),
            old(self).working() matches Some(w) ==> {
                let st = old(self).stack_of(w);
                &&& st.len() == 1 ==> r is Err && r->Err_0 is NotEnoughElements && final(self).states() == old(self).states()
                &&& st.len() > 1 && (st.last() != name@ || st[st.len() - 2] != label@) ==> r is Err
                    && r->Err_0 is AssertionError && final(self).states() == old(self).states()
                &&& st.len() > 1 && st.last() == name@ && st[st.len() - 2] == label@ ==> r is Ok
                    && final(self).states() == old(self).states().update(old(self).pos(w), KbStateView {
                        name: w,
                        stack: st.take(st.len() - 2),
                        used: old(self).used_of(w),
                    })
                    && final(self).stack_of(w) == st.take(st.len() - 2)
                    && final(self).used_of(w) == old(self).used_of(w)
                    && final(self).others_kept(*old(self), w)
            },
    {
        let w = match &self.working_kb {
            None => {
                return Err(ConstructMemError::NoWorkingKB);
            },
            Some(w) => w.clone(),
        };
        let idx = match self.find_kb(w.as_str()) {
            None => {
                proof {
                    assert(false);
                }
                return Err(ConstructMemError::KBNotFound(w));
            },
            Some(i) => i,
        };
        let ghost st = self.states()[idx as int].stack;
        let n = self.kbs[idx].stack.len();
        if n == 0 {
            return Err(ConstructMemError::PathEmpty);
        }
        if n < 2 {
            return Err(ConstructMemError::NotEnoughElements);
        }
        proof {
            assert(views(self.kbs@[idx as int].stack@)[n - 1] == self.kbs@[idx as int].stack@[n - 1]@);
            assert(views(self.kbs@[idx as int].stack@)[n - 2] == self.kbs@[idx as int].stack@[n - 2]@);
        }
        let name_ok = same_text(self.kbs[idx].stack[n - 1].as_str(), name.as_str());
        let label_ok = same_text(self.kbs[idx].stack[n - 2].as_str(), label.as_str());
        if !name_ok || !label_ok {
            let mut msg = String::new();
            if !name_ok {
                msg.append("expected name '");
                msg.append(name.as_str());
                msg.append("', but got '");
                msg.append(self.kbs[idx].stack[n - 1].as_str());
                msg.append("'");
            }
            if !label_ok {
                if !name_ok {
                    msg.append(", ");
                }
                msg.append("expected label '");
                msg.append(label.as_str());
                msg.append("', but got '");
                msg.append(self.kbs[idx].stack[n - 2].as_str());
                msg.append("'");
            }
            return Err(ConstructMemError::AssertionError(msg));
        }
        let ghost old_states = self.states();
        self.kbs[idx].stack.truncate(n - 2);
        proof {
            let nv = KbStateView { name: w@, stack: st.take(st.len() - 2), used: old_states[idx as int].used };
            assert(self.kbs@[idx as int]@.stack =~= nv.stack);
            assert(self.states() =~= old_states.update(idx as int, nv));
            assert(self.names() =~= old(self).names());
            assert forall|w2: Seq<char>| self.working() == Some(w2) implies self.names().contains(w2) by {
                assert(old(self).names().contains(w2));
            }
            assert forall|i: int, j: int| 0 <= i < j < self.states().len() implies (#[trigger] self.states()[i]).name != (#[trigger] self.states()[j]).name by {
                assert(self.states()[i].name == old_states[i].name);
                assert(self.states()[j].name == old_states[j].name);
            }
            assert forall|i: int| 0 <= i < self.states().len() implies {
                let s = #[trigger] self.states()[i];
                s.stack.len() >= 1 && s.stack.len() % 2 == 1 && s.stack[0] == s.name
            } by {
                if i == idx {
                    assert(old_states[i].stack[0] == old_states[i].name);
                }
            }
        }
        proof {
            let nv = KbStateView { name: w@, stack: st.take(st.len() - 2), used: old_states[idx as int].used };
            old(self).lemma_wf();
            lemma_update_state(*old(self), *self, idx as int, nv);
        }
        Ok(())
    }

    /// The full path of the innermost open scope of the selected knowledge base.
    fn current_full_path(&self) -> (r: Option<(String, String)>)
        requires
            self.wf(),
        ensures
            match self.working() {
                None => r is None,
                Some(w) => r is Some && (r->0).0@ == w && (r->0).1@ == join_dots(self.stack_of(w)),
            },
    {
        match &self.working_kb {
            None => None,
            Some(w) => {
                match self.find_kb(w.as_str()) {
                    None => None,
                    Some(i) => {
                        let p = join_range(&self.kbs[i].stack, 0, self.kbs[i].stack.len());
                        proof {
                            assert(views(self.kbs@[i as int].stack@).subrange(0, self.kbs@[i as int].stack@.len() as int) =~= self.stack_of(w@));
                        }
                        Some((w.clone(), p))
                    },
                }
            },
        }
    }

    /// Records a link named `link_name` at the innermost open scope of the
    /// selected knowledge base; the stack does not change.
    pub fn add_link_node(&mut self, link_name: &str) -> (r: Result<(), ConstructMemError>)
        requires
            old(self).wf(),
        ensures
            final(self).wf(),
            final(self).states() == old(self).states(),
            final(self).working() == old(self).working(),
            final(self).db() == old(self).db(),
            final(self).mounts() == old(self).mounts(),
            old(self).working() is None ==> r is Err && r->Err_0 is NoWorkingKB && final(self).links() == old(self).links(),
            old(self).working() matches Some(w) ==> r is Ok && final(self).links() == old(self).links().push(
                (w, join_dots(old(self).stack_of(w)), link_name@),
            ),
    {
        match self.current_full_path() {
            None => Err(ConstructMemError::NoWorkingKB),
            Some((w, p)) => {
                self.links.push((w, p, link_name.to_owned()));
                proof {
                    assert(self.kbs@ == old(self).kbs@);
                    assert(self.names() == old(self).names());
                    assert(self.working() == old(self).working());
                    assert(self.links() =~= old(self).links().push((old(self).working()->0, join_dots(old(self).stack_of(old(self).working()->0)), link_name@)));
                }
                Ok(())
            },
        }
    }

    /// Records a link mount named `link_mount_name` at the innermost open scope
    /// of the selected knowledge base, with its description (empty when none);
    /// the stack does not change.
    pub fn add_link_mount(&mut self, link_mount_name: &str, description: Option<&str>) -> (r: Result<(), ConstructMemError>)
        requires
            old(self).wf(),
        ensures
            final(self).wf(),
            final(self).states() == old(self).states(),
            final(self).working() == old(self).working(),
            final(self).db() == old(self).db(),
            final(self).links() == old(self).links(),
            old(self).working() is None ==> r is Err && r->Err_0 is NoWorkingKB && final(self).mounts() == old(self).mounts(),
            old(self).working() matches Some(w) ==> r is Ok && final(self).mounts() == old(self).mounts().push(
                (w, join_dots(old(self).stack_of(w)), link_mount_name@, match description {
                    Some(d) => d@,
                    None => Seq::<char>::empty(),
                }),
            ),
    {
        match self.current_full_path() {
            None => Err(ConstructMemError::NoWorkingKB),
            Some((w, p)) => {
                let d = match description {
                    Some(d) => d.to_owned(),
                    None => String::new(),
                };
                self.mounts.push((w, p, link_mount_name.to_owned(), d));
                proof {
                    assert(self.kbs@ == old(self).kbs@);
                    assert(self.names() == old(self).names());
                    assert(self.working() == old(self).working());
                    let e = (old(self).working()->0, join_dots(old(self).stack_of(old(self).working()->0)), link_mount_name@, match description {
                        Some(d) => d@,
                        None => Seq::<char>::empty(),
                    });
                    assert(self.mounts() =~= old(self).mounts().push(e));
                }
                Ok(())
            },
        }
    }

    /// Links recorded so far: knowledge base, full path, link name.
    pub fn get_links(&self) -> (r: &Vec<(String, String, String)>)
        ensures
            r@.map_values(|l: (String, String, String)| (l.0@, l.1@, l.2@)) == self.links(),
    {
        &self.links
    }

    /// Link mounts recorded so far: knowledge base, full path, mount name, description.
    pub fn get_link_mounts(&self) -> (r: &Vec<(String, String, String, String)>)
        ensures
            r@.map_values(|m: (String, String, String, String)| (m.0@, m.1@, m.2@, m.3@)) == self.mounts(),
    {
        &self.mounts
    }

    /// Succeeds when every tracked knowledge base's stack holds its name alone.
    pub fn check_installation(&self) -> (r: Result<(), ConstructMemError>)
        requires
            self.wf(),
        ensures
            r is Ok <==> forall|i: int| 0 <= i < self.states().len() ==> (#[trigger] self.states()[i]).stack == seq![self.states()[i].name],
            r is Err ==> r->Err_0 is InstallationCheckFailed,
    {
        let mut i: usize = 0;
        while i < self.kbs.len()
            invariant
                self.wf(),
                i <= self.kbs@.len(),
                forall|k: int| 0 <= k < i ==> (#[trigger] self.states()[k]).stack == seq![self.states()[k].name],
            decreases self.kbs@.len() - i,
        {
            let kb = &self.kbs[i];
            proof {
                assert(self.states()[i as int] == kb@);
            }
            if kb.stack.len() != 1 {
                let mut msg = String::new();
                msg.append("path is not empty for knowledge base ");
                msg.append(kb.name.as_str());
                msg.append(". Path: ");
                msg.append(join_range(&kb.stack, 0, kb.stack.len()).as_str());
                return Err(ConstructMemError::InstallationCheckFailed(msg));
            }
            proof {
                assert(kb@.stack =~= seq![kb@.name]);
            }
            i = i + 1;
        }
        Ok(())
    }

    /// The open scopes of the selected knowledge base.
    pub fn get_current_path(&self) -> (r: Option<Vec<String>>)
        requires
            self.wf(),
        ensures
            match self.working() {
                None => r is None,
                Some(w) => r is Some && views(r->0@) == self.stack_of(w),
            },
    {
        match &self.working_kb {
            None => None,
            Some(w) => {
                match self.find_kb(w.as_str()) {
                    None => None,
                    Some(i) => {
                        let v = copy_strings(&self.kbs[i].stack);
                        Some(v)
                    },
                }
            },
        }
    }

    /// The open scopes of the selected knowledge base joined by dots; empty when
    /// none is selected.
    pub fn get_current_path_string(&self) -> (r: String)
        requires
            self.wf(),
        ensures
            match self.working() {
                None => r@.len() == 0,
                Some(w) => r@ == join_dots(self.stack_of(w)),
            },
    {
        match &self.working_kb {
            None => String::new(),
            Some(w) => {
                match self.find_kb(w.as_str()) {
                    None => String::new(),
                    Some(i) => {
                        let r = join_range(&self.kbs[i].stack, 0, self.kbs[i].stack.len());
                        proof {
                            assert(views(self.kbs@[i as int].stack@).subrange(0, self.kbs@[i as int].stack@.len() as int) =~= self.stack_of(w@));
                        }
                        r
                    },
                }
            },
        }
    }

    /// The selected knowledge base.
    pub fn get_working_kb(&self) -> (r: Option<&String>)
        ensures
            match r {
                Some(s) => self.working() == Some(s@),
                None => self.working() is None,
            },
    {
        match &self.working_kb {
            Some(w) => Some(w),
            None => None,
        }
    }

    /// Names of the tracked knowledge bases, in order of addition.
    pub fn get_all_kb_names(&self) -> (r: Vec<String>)
        ensures
            views(r@) == self.names(),
    {
        let mut v: Vec<String> = Vec::new();
        let mut i: usize = 0;
        while i < self.kbs.len()
            invariant
                i <= self.kbs@.len(),
                v@.len() == i,
                forall|q: int| 0 <= q < i ==> (#[trigger] v@[q])@ == self.kbs@[q].name@,
            decreases self.kbs@.len() - i,
        {
            v.push(self.kbs[i].name.clone());
            i = i + 1;
        }
        proof {
            assert forall|q: int| 0 <= q < i implies #[trigger] views(v@)[q] == self.names()[q] by {
                assert(self.states()[q] == self.kbs@[q]@);
            }
            assert(views(v@) =~= self.names());
        }
        v
    }

    /// The path store underneath.
    pub fn basic_db(&self) -> (r: &BasicConstructDB)
        ensures
            *r == self.db(),
    {
        &self.basic_db
    }

    /// Removes every entry of the path store and stops tracking every knowledge base.
    pub fn clear_all(&mut self)
        requires
            old(self).wf(),
        ensures
            final(self).wf(),
            final(self).states().len() == 0,
            final(self).working() is None,
            final(self).db()@ == Map::<Seq<char>, EntryView>::empty(),
    {
        self.basic_db.clear();
        self.basic_db.clear_kb_records();
        self.working_kb = None;
        self.kbs = Vec::new();
        self.links = Vec::new();
        self.mounts = Vec::new();
        proof {
            assert(self.states() =~= Seq::<KbStateView>::empty());
        }
    }

    /// Number of full paths the knowledge base has opened, and its open scopes.
    pub fn get_kb_stats(&self, kb_name: &str) -> (r: Option<(usize, Vec<String>)>)
        requires
            self.wf(),
        ensures
            !self.names().contains(kb_name@) ==> r is None,
            self.names().contains(kb_name@) ==> r is Some && (r->0).0 == self.used_of(kb_name@).len()
                && views((r->0).1@) == self.stack_of(kb_name@),
    {
        match self.find_kb(kb_name) {
            None => None,
            Some(i) => {
                let v = copy_strings(&self.kbs[i].stack);
                proof {
                    assert(self.names()[i as int] == kb_name@);
                }
                Some((self.kbs[i].used.len(), v))
            },
        }
    }

    /// Every full path the knowledge base has opened, in order.
    pub fn list_kb_paths(&self, kb_name: &str) -> (r: Option<Vec<String>>)
        requires
            self.wf(),
        ensures
            !self.names().contains(kb_name@) ==> r is None,
            self.names().contains(kb_name@) ==> r is Some && views(r->0@) == self.used_of(kb_name@),
    {
        match self.find_kb(kb_name) {
            None => None,
            Some(i) => {
                let v = copy_strings(&self.kbs[i].used);
                proof {
                    assert(self.names()[i as int] == kb_name@);
                }
                Some(v)
            },
        }
    }

    /// Whether the selected knowledge base has opened `path`.
    pub fn path_exists_in_working_kb(&self, path: &str) -> (r: bool)
        requires
            self.wf(),
        ensures
            r == match self.working() {
                None => false,
                Some(w) => self.used_of(w).contains(path@),
            },
    {
        match &self.working_kb {
            None => false,
            Some(w) => {
                match self.find_kb(w.as_str()) {
                    None => false,
                    Some(i) => {
                        let mut u: usize = 0;
                        while u < self.kbs[i].used.len()
                            invariant
                                i < self.kbs@.len(),
                                self.pos(w@) == i,
                                self.working() == Some(w@),
                                self.states()[i as int] == self.kbs@[i as int]@,
                                u <= self.kbs@[i as int].used@.len(),
                                forall|q: int| 0 <= q < u ==> views(self.kbs@[i as int].used@)[q] != path@,
                            decreases self.kbs@[i as int].used@.len() - u,
                        {
                            if same_text(self.kbs[i].used[u].as_str(), path) {
                                proof {
                                    assert(views(self.kbs@[i as int].used@)[u as int] == path@);
                                }
                                return true;
                            }
                            u = u + 1;
                        }
                        false
                    },
                }
            },
        }
    }

    /// Stops tracking the knowledge base, clears the selection if it was
    /// selected, and deletes its root entry and every entry under it.
    pub fn remove_kb(&mut self, kb_name: &str) -> (r: Result<(), ConstructMemError>)
        requires
            old(self).wf(),
        ensures
            final(self).wf(),
            r is Ok <==> old(self).names().contains(kb_name@),
            r is Err ==> r->Err_0 is KBNotFound && r->Err_0->KBNotFound_0@ == kb_name@
                && final(self).states() == old(self).states() && final(self).db() == old(self).db()
                && final(self).working() == old(self).working(),
            r is Ok ==> final(self).states() == old(self).states().remove(old(self).pos(kb_name@))
                && (forall|k: Seq<char>| final(self).names().contains(k) <==> old(self).names().contains(k) && k != kb_name@)
                && final(self).others_kept(*old(self), kb_name@)
                && !final(self).db().kb_names().contains(kb_name@)
                && final(self).working() == (if old(self).working() == Some(kb_name@) { None } else { old(self).working() })
                && final(self).db().entries() == old(self).db().entries().filter(|e: EntryView| !in_subtree(kb_name@, e.path)),
    {
        let idx = match self.find_kb(kb_name) {
            None => {
                return Err(ConstructMemError::KBNotFound(kb_name.to_owned()));
            },
            Some(i) => i,
        };
        let clear = match &self.working_kb {
            Some(w) => same_text(w.as_str(), kb_name),
            None => false,
        };
        if clear {
            self.working_kb = None;
        }
        let ghost old_states = self.states();
        self.kbs.remove(idx);
        self.basic_db.delete_subtree(kb_name);
        self.basic_db.remove_kb_record(kb_name);
        proof {
            assert(self.states() =~= old_states.remove(idx as int));
            lemma_remove_names(*old(self), *self, idx as int);
            assert forall|i: int, j: int| 0 <= i < j < self.states().len() implies (#[trigger] self.states()[i]).name != (#[trigger] self.states()[j]).name by {
                let a = if i < idx { i } else { i + 1 };
                let b = if j < idx { j } else { j + 1 };
                assert(self.states()[i] == old_states[a]);
                assert(self.states()[j] == old_states[b]);
            }
            assert forall|i: int| 0 <= i < self.states().len() implies {
                let s = #[trigger] self.states()[i];
                s.stack.len() >= 1 && s.stack.len() % 2 == 1 && s.stack[0] == s.name
            } by {
                let a = if i < idx { i } else { i + 1 };
                assert(self.states()[i] == old_states[a]);
            }
            assert forall|w2: Seq<char>| self.working() == Some(w2) implies self.names().contains(w2) by {
                assert(old(self).names().contains(w2));
                assert(w2 != kb_name@);
            }
            assert forall|x: Seq<char>| self.basic_db.kb_names().contains(x) <==> self.names().contains(x) by {
                assert(old(self).basic_db.kb_names().contains(x) <==> old(self).names().contains(x));
            }
            assert(self.wf());
            lemma_remove_state(*old(self), *self, idx as int);
        }
        Ok(())
    }
}

impl Default for ConstructMemDB {
    /// An empty instance with the usual local connection settings.
    fn default() -> (r: Self)
        ensures
            r.wf(),
            r.states().len() == 0,
            r.working() is None,
            r.db()@ == Map::<Seq<char>, EntryView>::empty(),
    {
        ConstructMemDB::new(
            "localhost".to_owned(),
            5432,
            "postgres".to_owned(),
            "postgres".to_owned(),
            String::new(),
            "ltree_data".to_owned(),
        )
    }
}

/// The JSON text of a node's members, with the description merged in.
fn node_text(node_data: &Vec<(String, String)>, description: &Option<String>) -> (r: Option<String>)
    ensures
        crate::store::opt_view(r) == node_value(node_data@, *description),
{
    let mut ms: Vec<(String, String)> = Vec::new();
    let mut i: usize = 0;
    while i < node_data.len()
        invariant
            i <= node_data@.len(),
            member_views(ms@) == member_views(node_data@).take(i as int),
        decreases node_data@.len() - i,
    {
        let ghost before = member_views(ms@);
        ms.push((node_data[i].0.clone(), node_data[i].1.clone()));
        proof {
            assert(member_views(ms@) =~= before.push(member_views(node_data@)[i as int]));
            assert(member_views(ms@) =~= member_views(node_data@).take(i + 1));
        }
        i = i + 1;
    }
    proof {
        assert(member_views(node_data@).take(i as int) =~= member_views(node_data@));
        reveal_strlit("description");
        assert("description"@ =~= description_key());
    }
    let ghost before = member_views(ms@);
    match description {
        Some(d) => {
            if d.unicode_len() > 0 {
                ms.push(("description".to_owned(), quote(d.as_str())));
                proof {
                    assert(member_views(ms@) =~= before.push((description_key(), json_string_literal(d@))));
                }
            }
        },
        None => {},
    }
    object_text_of(&ms)
}

/// Replacing the state of one knowledge base changes its stack and used paths
/// to the new ones and keeps every other knowledge base.
proof fn lemma_update_state(a: ConstructMemDB, b: ConstructMemDB, i: int, nv: KbStateView)
    requires
        a.wf(),
        b.wf(),
        0 <= i < a.states().len(),
        nv.name == a.states()[i].name,
        b.states() == a.states().update(i, nv),
    ensures
        b.names() == a.names(),
        a.pos(nv.name) == i,
        b.pos(nv.name) == i,
        b.stack_of(nv.name) == nv.stack,
        b.used_of(nv.name) == nv.used,
        b.others_kept(a, nv.name),
{
    assert(b.names() =~= a.names());
    a.lemma_pos(i);
    b.lemma_pos(i);
    assert forall|k: Seq<char>| #[trigger] a.names().contains(k) && k != nv.name implies {
        &&& b.names().contains(k)
        &&& b.stack_of(k) == a.stack_of(k)
        &&& b.used_of(k) == a.used_of(k)
    } by {
        let j = choose|j: int| 0 <= j < a.names().len() && a.names()[j] == k;
        a.lemma_pos(j);
        b.lemma_pos(j);
    }
}

/// Adding a knowledge base gives it the new state and keeps every other one.
proof fn lemma_push_state(a: ConstructMemDB, b: ConstructMemDB, nv: KbStateView)
    requires
        a.wf(),
        b.wf(),
        !a.names().contains(nv.name),
        b.states() == a.states().push(nv),
    ensures
        b.names() == a.names().push(nv.name),
        b.stack_of(nv.name) == nv.stack,
        b.used_of(nv.name) == nv.used,
        b.others_kept(a, nv.name),
{
    assert(b.names() =~= a.names().push(nv.name));
    b.lemma_pos(a.states().len() as int);
    assert forall|k: Seq<char>| #[trigger] a.names().contains(k) && k != nv.name implies {
        &&& b.names().contains(k)
        &&& b.stack_of(k) == a.stack_of(k)
        &&& b.used_of(k) == a.used_of(k)
    } by {
        let j = choose|j: int| 0 <= j < a.names().len() && a.names()[j] == k;
        a.lemma_pos(j);
        b.lemma_pos(j);
        assert(b.names()[j] == k);
    }
}

/// Removing a knowledge base leaves exactly the other names tracked.
proof fn lemma_remove_names(a: ConstructMemDB, b: ConstructMemDB, i: int)
    requires
        a.wf(),
        0 <= i < a.states().len(),
        b.states() == a.states().remove(i),
    ensures
        forall|k: Seq<char>| b.names().contains(k) <==> a.names().contains(k) && k != a.states()[i].name,
{
    let name = a.states()[i].name;
    assert forall|k: Seq<char>| b.names().contains(k) implies a.names().contains(k) && k != name by {
        let j = choose|j: int| 0 <= j < b.names().len() && b.names()[j] == k;
        let aj = if j < i { j } else { j + 1 };
        assert(b.states()[j] == a.states()[aj]);
        assert(a.names()[aj] == k);
        if aj < i {
            assert(a.states()[aj].name != a.states()[i].name);
        } else {
            assert(a.states()[i].name != a.states()[aj].name);
        }
    }
    assert forall|k: Seq<char>| a.names().contains(k) && k != name implies b.names().contains(k) by {
        let j = choose|j: int| 0 <= j < a.names().len() && a.names()[j] == k;
        let bj = if j < i { j } else { j - 1 };
        assert(j != i);
        assert(b.states()[bj] == a.states()[j]);
        assert(b.names()[bj] == k);
    }
}

/// Removing a knowledge base stops tracking it and keeps every other one.
proof fn lemma_remove_state(a: ConstructMemDB, b: ConstructMemDB, i: int)
    requires
        a.wf(),
        b.wf(),
        0 <= i < a.states().len(),
        b.states() == a.states().remove(i),
    ensures
        b.others_kept(a, a.states()[i].name),
{
    let name = a.states()[i].name;
    lemma_remove_names(a, b, i);
    assert forall|k: Seq<char>| #[trigger] a.names().contains(k) && k != name implies {
        &&& b.names().contains(k)
        &&& b.stack_of(k) == a.stack_of(k)
        &&& b.used_of(k) == a.used_of(k)
    } by {
        let j = choose|j: int| 0 <= j < a.names().len() && a.names()[j] == k;
        assert(j != i);
        let bj = if j < i { j } else { j - 1 };
        assert(b.states()[bj] == a.states()[j]);
        assert(b.names()[bj] == k);
        a.lemma_pos(j);
        b.lemma_pos(bj);
    }
}

/// Opening `link`, `name` on a stack and then closing `link`, `name` gives the
/// stack back, so opening them again gives the same full path, which the first
/// opening recorded as used: the second opening fails.
pub proof fn law_open_close_reopen(st: Seq<Seq<char>>, used: Seq<Seq<char>>, link: Seq<char>, name: Seq<char>)
    ensures
        ({
            let opened = st.push(link).push(name);
            &&& opened.last() == name
            &&& opened[opened.len() - 2] == link
            &&& opened.take(opened.len() - 2) == st
            &&& used.push(opened_path(st, link, name)).contains(opened_path(opened.take(opened.len() - 2), link, name))
        }),
{
    let opened = st.push(link).push(name);
    assert(opened.take(opened.len() - 2) =~= st);
    let u = used.push(opened_path(st, link, name));
    assert(u[u.len() - 1] == opened_path(st, link, name));
}

} // verus!
