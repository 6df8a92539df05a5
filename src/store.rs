use vstd::prelude::*;
use crate::order::{text_lt, text_less, lemma_text_lt_transitive, lemma_text_lt_total, lemma_text_lt_asymmetric, lemma_text_lt_irreflexive};
use crate::path::{
    valid_path, check_path, same_text, is_ancestor, is_ancestor_or_equal, is_descendant, is_descendant_or_equal,
    depth_of, depth, ancestor_text, split_dots, split_labels, views, concat_spec, concat_paths, subpath_start,
    subpath_end, subpath_of, subltree_range, subltree_of, occurs_at, index_of, lca_spec, lca_of, join_dots,
};
use crate::pattern::{regex_accepts, query_regex, query_to_regex, word_query_holds, wildcard_match, word_match};

verus! {

/// A stored entry: its path, its value as JSON text, and its timestamps.
#[derive(Clone)]
pub struct TreeNode {
    pub path: String,
    pub data: String,
    pub created_at: Option<String>,
    pub updated_at: Option<String>,
}

/// One row of a query result, with the same fields as a stored entry.
#[derive(Clone)]
pub struct QueryResult {
    pub path: String,
    pub data: String,
    pub created_at: Option<String>,
    pub updated_at: Option<String>,
}

/// What an entry holds, as plain text.
pub struct EntryView {
    pub path: Seq<char>,
    pub data: Seq<char>,
    pub created_at: Option<Seq<char>>,
    pub updated_at: Option<Seq<char>>,
}

pub open spec fn opt_view(o: Option<String>) -> Option<Seq<char>> {
    match o {
        Some(s) => Some(s@),
        None => None,
    }
}

impl View for TreeNode {
    type V = EntryView;

    open spec fn view(&self) -> EntryView {
        EntryView {
            path: self.path@,
            data: self.data@,
            created_at: opt_view(self.created_at),
            updated_at: opt_view(self.updated_at),
        }
    }
}

impl View for QueryResult {
    type V = EntryView;

    open spec fn view(&self) -> EntryView {
        EntryView {
            path: self.path@,
            data: self.data@,
            created_at: opt_view(self.created_at),
            updated_at: opt_view(self.updated_at),
        }
    }
}

fn clone_opt(o: &Option<String>) -> (r: Option<String>)
    ensures
        opt_view(r) == opt_view(*o),
{
    match o {
        Some(s) => Some(s.clone()),
        None => None,
    }
}

impl TreeNode {
    /// A copy with every field equal.
    pub fn copy(&self) -> (r: TreeNode)
        ensures
            r@ == self@,
    {
        TreeNode {
            path: self.path.clone(),
            data: self.data.clone(),
            created_at: clone_opt(&self.created_at),
            updated_at: clone_opt(&self.updated_at),
        }
    }

    /// The entry as a query result row.
    pub fn to_result(&self) -> (r: QueryResult)
        ensures
            r@ == self@,
    {
        QueryResult {
            path: self.path.clone(),
            data: self.data.clone(),
            created_at: clone_opt(&self.created_at),
            updated_at: clone_opt(&self.updated_at),
        }
    }
}

/// Counts over the stored paths: entries, greatest depth, the sum of all
/// depths (held at `usize::MAX` when it is larger; with the entry count it
/// gives the average depth), entries of depth one, and entries with no strict
/// descendant stored.
#[derive(Clone, Copy, Debug)]
pub struct TreeStats {
    pub total_nodes: usize,
    pub max_depth: usize,
    pub depth_sum: usize,
    pub root_nodes: usize,
    pub leaf_nodes: usize,
}

/// Rows moved in each direction by a synchronisation with the backing store.
#[derive(Clone, Copy, Debug)]
pub struct SyncStats {
    pub imported: usize,
    pub exported: usize,
}

/// Failures of the path store.
#[derive(Debug)]
pub enum KbError {
    InvalidPath(String),
    DatabaseError(String),
    KnowledgeBaseExists(String),
    PathNotFound(String),
    ValidationError(String),
}

/// The text that describes a failure of the path store.
pub open spec fn kb_error_text(e: KbError) -> Seq<char> {
    match e {
        KbError::InvalidPath(p) => "Invalid ltree path: "@ + p@,
        KbError::DatabaseError(m) => "Database error: "@ + m@,
        KbError::KnowledgeBaseExists(n) => "Knowledge base "@ + n@ + " already exists"@,
        KbError::PathNotFound(p) => "Path "@ + p@ + " does not exist"@,
        KbError::ValidationError(m) => "Validation error: "@ + m@,
    }
}

impl KbError {
    /// The text that describes the failure.
    pub fn message(&self) -> (r: String)
        ensures
            r@ == kb_error_text(*self),
    {
        match self {
            KbError::InvalidPath(p) => {
                let mut r = "Invalid ltree path: ".to_owned();
                r.append(p.as_str());
                r
            },
            KbError::DatabaseError(m) => {
                let mut r = "Database error: ".to_owned();
                r.append(m.as_str());
                r
            },
            KbError::KnowledgeBaseExists(n) => {
                let mut r = "Knowledge base ".to_owned();
                r.append(n.as_str());
                r.append(" already exists");
                r
            },
            KbError::PathNotFound(p) => {
                let mut r = "Path ".to_owned();
                r.append(p.as_str());
                r.append(" does not exist");
                r
            },
            KbError::ValidationError(m) => {
                let mut r = "Validation error: ".to_owned();
                r.append(m.as_str());
                r
            },
        }
    }
}

/// Names of knowledge-base records.
pub open spec fn record_names(v: Seq<(String, String)>) -> Seq<Seq<char>> {
    v.map_values(|p: (String, String)| p.0@)
}

/// Entries sorted strictly by path.
pub open spec fn sorted_by_path(s: Seq<EntryView>) -> bool {
    forall|i: int, j: int| 0 <= i < j < s.len() ==> text_lt(#[trigger] s[i].path, #[trigger] s[j].path)
}

/// The map from path to entry that a sequence of entries with distinct paths holds.
pub open spec fn to_map(s: Seq<EntryView>) -> Map<Seq<char>, EntryView>
    decreases s.len(),
{
    if s.len() == 0 {
        Map::empty()
    } else {
        to_map(s.drop_last()).insert(s.last().path, s.last())
    }
}

pub proof fn lemma_to_map(s: Seq<EntryView>)
    requires
        sorted_by_path(s),
    ensures
        forall|k: Seq<char>| #[trigger] to_map(s).contains_key(k) <==> exists|i: int| 0 <= i < s.len() && s[i].path == k,
        forall|i: int| 0 <= i < s.len() ==> #[trigger] to_map(s)[s[i].path] == s[i],
    decreases s.len(),
{
    if s.len() > 0 {
        let t = s.drop_last();
        assert(sorted_by_path(t));
        lemma_to_map(t);
        assert forall|k: Seq<char>| #[trigger] to_map(s).contains_key(k) implies exists|i: int| 0 <= i < s.len() && s[i].path == k by {
            if k == s.last().path {
                assert(s[s.len() - 1].path == k);
            } else {
                assert(to_map(t).contains_key(k));
                let i = choose|i: int| 0 <= i < t.len() && t[i].path == k;
                assert(s[i].path == k);
            }
        }
        assert forall|k: Seq<char>| (exists|i: int| 0 <= i < s.len() && s[i].path == k) implies #[trigger] to_map(s).contains_key(k) by {
            let i = choose|i: int| 0 <= i < s.len() && s[i].path == k;
            if i < s.len() - 1 {
                assert(t[i].path == k);
                assert(to_map(t).contains_key(k));
            }
        }
        assert forall|i: int| 0 <= i < s.len() implies #[trigger] to_map(s)[s[i].path] == s[i] by {
            if i < s.len() - 1 {
                lemma_text_lt_asymmetric(s[i].path, s[s.len() - 1].path);
                assert(t[i] == s[i]);
                assert(to_map(t)[t[i].path] == t[i]);
            }
        }
    }
}

/// The path store: entries keyed by path, kept sorted by path, and the
/// knowledge bases recorded with their descriptions.
pub struct BasicConstructDB {
    data: Vec<TreeNode>,
    kb_dict: Vec<(String, String)>,
    host: String,
    port: u16,
    dbname: String,
    user: String,
    password: String,
    table_name: String,
}

impl View for BasicConstructDB {
    type V = Map<Seq<char>, EntryView>;

    /// Path to entry.
    closed spec fn view(&self) -> Map<Seq<char>, EntryView> {
        to_map(self.entries())
    }
}

impl BasicConstructDB {
    /// The entries in path order.
    pub closed spec fn entries(&self) -> Seq<EntryView> {
        self.data@.map_values(|e: TreeNode| e@)
    }

    /// The stored paths in order.
    pub open spec fn paths(&self) -> Seq<Seq<char>> {
        self.entries().map_values(|e: EntryView| e.path)
    }

    /// Names of the recorded knowledge bases.
    pub closed spec fn kb_names(&self) -> Seq<Seq<char>> {
        record_names(self.kb_dict@)
    }

    /// Entries are sorted by path and every stored path is well formed.
    pub closed spec fn wf(&self) -> bool {
        &&& sorted_by_path(self.entries())
        &&& forall|i: int| 0 <= i < self.entries().len() ==> valid_path(#[trigger] self.entries()[i].path)
    }

    pub fn new(host: String, port: u16, dbname: String, user: String, password: String, table_name: String) -> (r: Self)
        ensures
            r.wf(),
            r.entries().len() == 0,
            r@ == Map::<Seq<char>, EntryView>::empty(),
            r.kb_names().len() == 0,
    {
        proof {
            assert(Seq::<TreeNode>::empty().map_values(|e: TreeNode| e@) =~= Seq::<EntryView>::empty());
        }
        BasicConstructDB {
            data: Vec::new(),
            kb_dict: Vec::new(),
            host,
            port,
            dbname,
            user,
            password,
            table_name,
        }
    }

    /// Name of the backing table.
    pub fn table_name(&self) -> &String {
        &self.table_name
    }

    /// Host, port, database, user and password of the backing store.
    pub fn connection_parts(&self) -> (&String, u16, &String, &String, &String) {
        (&self.host, self.port, &self.dbname, &self.user, &self.password)
    }

    /// Records a knowledge base with its description; fails if one of that
    /// name is recorded.
    pub fn add_kb(&mut self, kb_name: &str, description: &str) -> (r: Result<(), KbError>)
        ensures
            final(self).entries() == old(self).entries(),
            final(self)@ == old(self)@,
            final(self).wf() == old(self).wf(),
            r is Err <==> old(self).kb_names().contains(kb_name@),
            r is Err ==> final(self).kb_names() == old(self).kb_names() && r->Err_0 is KnowledgeBaseExists
                && r->Err_0->KnowledgeBaseExists_0@ == kb_name@,
            r is Ok ==> final(self).kb_names() == old(self).kb_names().push(kb_name@),
    {
        let mut i: usize = 0;
        while i < self.kb_dict.len()
            invariant
                i <= self.kb_dict@.len(),
                self.kb_dict@ == old(self).kb_dict@,
                self.data@ == old(self).data@,
                forall|k: int| 0 <= k < i ==> self.kb_dict@[k].0@ != kb_name@,
            decreases self.kb_dict@.len() - i,
        {
            if same_text(self.kb_dict[i].0.as_str(), kb_name) {
                proof {
                    assert(self.kb_names()[i as int] == kb_name@);
                }
                return Err(KbError::KnowledgeBaseExists(kb_name.to_owned()));
            }
            i = i + 1;
        }
        self.kb_dict.push((kb_name.to_owned(), description.to_owned()));
        proof {
            assert(self.kb_names() =~= old(self).kb_names().push(kb_name@));
        }
        Ok(())
    }

    /// Drops the record of the knowledge base `kb_name`, if there is one.
    pub fn remove_kb_record(&mut self, kb_name: &str)
        ensures
            final(self)@ == old(self)@,
            final(self).entries() == old(self).entries(),
            final(self).wf() == old(self).wf(),
            forall|x: Seq<char>| final(self).kb_names().contains(x) <==> old(self).kb_names().contains(x) && x != kb_name@,
    {
        let mut kept: Vec<(String, String)> = Vec::new();
        let mut i: usize = 0;
        while i < self.kb_dict.len()
            invariant
                i <= self.kb_dict@.len(),
                self.kb_dict@ == old(self).kb_dict@,
                self.data@ == old(self).data@,
                forall|x: Seq<char>| record_names(kept@).contains(x)
                    <==> old(self).kb_names().take(i as int).contains(x) && x != kb_name@,
            decreases self.kb_dict@.len() - i,
        {
            let ghost before = record_names(kept@);
            let ghost pre = old(self).kb_names().take(i as int);
            proof {
                assert(old(self).kb_names().take(i + 1) =~= pre.push(self.kb_dict@[i as int].0@));
            }
            if !same_text(self.kb_dict[i].0.as_str(), kb_name) {
                kept.push((self.kb_dict[i].0.clone(), self.kb_dict[i].1.clone()));
                proof {
                    assert(record_names(kept@) =~= before.push(self.kb_dict@[i as int].0@));
                }
            }
            proof {
                let now = record_names(kept@);
                let nxt = old(self).kb_names().take(i + 1);
                assert forall|x: Seq<char>| now.contains(x) <==> nxt.contains(x) && x != kb_name@ by {
                    if now.contains(x) {
                        let j = choose|j: int| 0 <= j < now.len() && now[j] == x;
                        if j < before.len() {
                            assert(before.contains(x));
                            let q = choose|q: int| 0 <= q < pre.len() && pre[q] == x;
                            assert(nxt[q] == x);
                        } else {
                            assert(nxt[i as int] == x);
                        }
                    }
                    if nxt.contains(x) && x != kb_name@ {
                        let q = choose|q: int| 0 <= q < nxt.len() && nxt[q] == x;
                        if q < i {
                            assert(pre[q] == x);
                            assert(before.contains(x));
                            let j = choose|j: int| 0 <= j < before.len() && before[j] == x;
                            assert(now[j] == x);
                        } else {
                            assert(now[now.len() - 1] == x);
                        }
                    }
                }
            }
            i = i + 1;
        }
        proof {
            assert(old(self).kb_names().take(i as int) =~= old(self).kb_names());
        }
        self.kb_dict = kept;
    }

    /// Drops every knowledge-base record.
    pub fn clear_kb_records(&mut self)
        ensures
            final(self)@ == old(self)@,
            final(self).entries() == old(self).entries(),
            final(self).wf() == old(self).wf(),
            final(self).kb_names().len() == 0,
    {
        self.kb_dict = Vec::new();
        proof {
            assert(self.kb_names() =~= Seq::<Seq<char>>::empty());
        }
    }

    /// Index of the first entry whose path is not before `path`.
    fn position(&self, path: &str) -> (r: usize)
        requires
            self.wf(),
        ensures
            r <= self.entries().len(),
            forall|i: int| 0 <= i < r ==> text_lt(#[trigger] self.entries()[i].path, path@),
            r < self.entries().len() ==> !text_lt(self.entries()[r as int].path, path@),
            forall|i: int| r <= i < self.entries().len() ==> !text_lt(#[trigger] self.entries()[i].path, path@),
    {
        let mut i: usize = 0;
        while i < self.data.len()
            invariant
                self.wf(),
                i <= self.data@.len(),
                forall|k: int| 0 <= k < i ==> text_lt(#[trigger] self.entries()[k].path, path@),
            decreases self.data@.len() - i,
        {
            if !text_less(self.data[i].path.as_str(), path) {
                proof {
                    assert forall|k: int| i <= k < self.entries().len() implies !text_lt(#[trigger] self.entries()[k].path, path@) by {
                        if k > i && text_lt(self.entries()[k].path, path@) {
                            lemma_text_lt_transitive(self.entries()[i as int].path, self.entries()[k].path, path@);
                        }
                    }
                }
                return i;
            }
            i = i + 1;
        }
        i
    }

    /// Index of the entry at `path`, if there is one.
    fn find(&self, path: &str) -> (r: Option<usize>)
        requires
            self.wf(),
        ensures
            match r {
                Some(i) => i < self.entries().len() && self.entries()[i as int].path == path@,
                None => forall|i: int| 0 <= i < self.entries().len() ==> #[trigger] self.entries()[i].path != path@,
            },
    {
        let i = self.position(path);
        if i < self.data.len() && same_text(self.data[i].path.as_str(), path) {
            return Some(i);
        }
        proof {
            assert forall|k: int| 0 <= k < self.entries().len() implies #[trigger] self.entries()[k].path != path@ by {
                if k < i {
                    lemma_text_lt_asymmetric(self.entries()[k].path, path@);
                } else if k > i {
                    lemma_text_lt_total(self.entries()[i as int].path, path@);
                    if self.entries()[k].path == path@ {
                        lemma_text_lt_transitive(path@, self.entries()[i as int].path, self.entries()[k].path);
                        lemma_text_lt_irreflexive(path@);
                    }
                }
            }
        }
        None
    }

    /// Stores `data` at `path`, replacing any entry there; fails on a malformed path.
    pub fn store(&mut self, path: &str, data: String, created_at: Option<String>, updated_at: Option<String>) -> (r: Result<(), KbError>)
        requires
            old(self).wf(),
        ensures
            final(self).wf(),
            final(self).kb_names() == old(self).kb_names(),
            r is Ok <==> valid_path(path@),
            r is Err ==> r->Err_0 is InvalidPath && r->Err_0->InvalidPath_0@ == path@ && final(self)@ == old(self)@
                && final(self).entries() == old(self).entries() && *final(self) == *old(self),
            r is Ok ==> final(self)@ == old(self)@.insert(path@, EntryView {
                path: path@,
                data: data@,
                created_at: opt_view(created_at),
                updated_at: opt_view(updated_at),
            }),
    {
        if !check_path(path) {
            return Err(KbError::InvalidPath(path.to_owned()));
        }
        let node = TreeNode { path: path.to_owned(), data, created_at, updated_at };
        let ghost e = node@;
        let i = self.position(path);
        let ghost old_entries = self.entries();
        proof {
            lemma_to_map(old_entries);
        }
        if i < self.data.len() && same_text(self.data[i].path.as_str(), path) {
            self.data.set(i, node);
            proof {
                assert(self.entries() =~= old_entries.update(i as int, e));
                assert(sorted_by_path(self.entries()));
                lemma_to_map(self.entries());
                assert(self@ =~= old(self)@.insert(path@, e)) by {
                    assert forall|k: Seq<char>| #[trigger] self@.contains_key(k) <==> old(self)@.insert(path@, e).contains_key(k) by {
                        if self@.contains_key(k) {
                            let j = choose|j: int| 0 <= j < self.entries().len() && self.entries()[j].path == k;
                            if j != i {
                                assert(old_entries[j].path == k);
                            }
                        }
                        if old(self)@.contains_key(k) {
                            let j = choose|j: int| 0 <= j < old_entries.len() && old_entries[j].path == k;
                            assert(self.entries()[j].path == k);
                        }
                    }
                    assert forall|k: Seq<char>| #[trigger] self@.contains_key(k) implies self@[k] == old(self)@.insert(path@, e)[k] by {
                        let j = choose|j: int| 0 <= j < self.entries().len() && self.entries()[j].path == k;
                        if j != i {
                            assert(old_entries[j] == self.entries()[j]);
                        }
                    }
                }
            }
        } else {
            proof {
                if i < old_entries.len() {
                    lemma_text_lt_total(old_entries[i as int].path, path@);
                }
                assert forall|j: int| i <= j < old_entries.len() implies text_lt(path@, #[trigger] old_entries[j].path) by {
                    if j > i {
                        lemma_text_lt_transitive(path@, old_entries[i as int].path, old_entries[j].path);
                    }
                }
            }
            self.data.insert(i, node);
            proof {
                assert(self.entries() =~= old_entries.insert(i as int, e));
                assert forall|a: int, b: int| 0 <= a < b < self.entries().len() implies text_lt(#[trigger] self.entries()[a].path, #[trigger] self.entries()[b].path) by {
                    if a < i && b > i {
                        lemma_text_lt_transitive(old_entries[a].path, path@, old_entries[b - 1].path);
                    } else if a == i {
                        assert(text_lt(path@, old_entries[b - 1].path));
                    } else if a > i {
                        assert(text_lt(old_entries[a - 1].path, old_entries[b - 1].path));
                    }
                }
                lemma_to_map(self.entries());
                assert(self@ =~= old(self)@.insert(path@, e)) by {
                    assert forall|k: Seq<char>| #[trigger] self@.contains_key(k) <==> old(self)@.insert(path@, e).contains_key(k) by {
                        if self@.contains_key(k) {
                            let j = choose|j: int| 0 <= j < self.entries().len() && self.entries()[j].path == k;
                            if j < i {
                                assert(self.entries()[j] == old_entries[j]);
                                assert(old_entries[j].path == k);
                                assert(old(self)@.contains_key(k));
                            } else if j > i {
                                assert(self.entries()[j] == old_entries[j - 1]);
                                assert(old_entries[j - 1].path == k);
                                assert(old(self)@.contains_key(k));
                            } else {
                                assert(self.entries()[j] == e);
                            }
                        }
                        if k == path@ {
                            assert(self.entries()[i as int] == e);
                        }
                        if old(self)@.contains_key(k) {
                            let j = choose|j: int| 0 <= j < old_entries.len() && old_entries[j].path == k;
                            if j < i {
                                assert(self.entries()[j] == old_entries[j]);
                                assert(self.entries()[j].path == k);
                            } else {
                                assert(self.entries()[j + 1] == old_entries[j]);
                                assert(self.entries()[j + 1].path == k);
                            }
                        }
                    }
                    assert forall|k: Seq<char>| #[trigger] self@.contains_key(k) implies self@[k] == old(self)@.insert(path@, e)[k] by {
                        let j = choose|j: int| 0 <= j < self.entries().len() && self.entries()[j].path == k;
                        assert(self@[self.entries()[j].path] == self.entries()[j]);
                        if j < i {
                            assert(old_entries[j] == self.entries()[j]);
                            assert(old(self)@[old_entries[j].path] == old_entries[j]);
                            lemma_text_lt_asymmetric(k, path@);
                        } else if j > i {
                            assert(old_entries[j - 1] == self.entries()[j]);
                            assert(old(self)@[old_entries[j - 1].path] == old_entries[j - 1]);
                            lemma_text_lt_asymmetric(path@, k);
                        }
                    }
                }
            }
        }
        proof {
            assert(self.kb_dict@ == old(self).kb_dict@);
        }
        Ok(())
    }

    /// The value stored at `path`; fails on a malformed path.
    pub fn get(&self, path: &str) -> (r: Result<Option<String>, KbError>)
        requires
            self.wf(),
        ensures
            r is Err <==> !valid_path(path@),
            r is Err ==> r->Err_0 is InvalidPath && r->Err_0->InvalidPath_0@ == path@,
            r is Ok ==> match r->Ok_0 {
                Some(v) => self@.contains_key(path@) && v@ == self@[path@].data,
                None => !self@.contains_key(path@),
            },
    {
        if !check_path(path) {
            return Err(KbError::InvalidPath(path.to_owned()));
        }
        proof {
            lemma_to_map(self.entries());
        }
        match self.find(path) {
            Some(i) => Ok(Some(self.data[i].data.clone())),
            None => Ok(None),
        }
    }

    /// The entry stored at `path`; fails on a malformed path.
    pub fn get_node(&self, path: &str) -> (r: Result<Option<TreeNode>, KbError>)
        requires
            self.wf(),
        ensures
            r is Err <==> !valid_path(path@),
            r is Err ==> r->Err_0 is InvalidPath && r->Err_0->InvalidPath_0@ == path@,
            r is Ok ==> match r->Ok_0 {
                Some(n) => self@.contains_key(path@) && n@ == self@[path@],
                None => !self@.contains_key(path@),
            },
    {
        if !check_path(path) {
            return Err(KbError::InvalidPath(path.to_owned()));
        }
        proof {
            lemma_to_map(self.entries());
        }
        match self.find(path) {
            Some(i) => Ok(Some(self.data[i].copy())),
            None => Ok(None),
        }
    }

    /// Whether an entry is stored at the well-formed `path`.
    pub fn contains_path(&self, path: &str) -> (r: bool)
        requires
            self.wf(),
        ensures
            r == (self@.contains_key(path@) && valid_path(path@)),
    {
        proof {
            lemma_to_map(self.entries());
        }
        match self.find(path) {
            Some(_) => check_path(path),
            None => false,
        }
    }

    /// Removes the entry at `path`; true iff there was one.
    pub fn delete(&mut self, path: &str) -> (r: bool)
        requires
            old(self).wf(),
        ensures
            final(self).wf(),
            final(self).kb_names() == old(self).kb_names(),
            r == old(self)@.contains_key(path@),
            final(self)@ == old(self)@.remove(path@),
            !r ==> final(self).entries() == old(self).entries() && *final(self) == *old(self),
    {
        proof {
            lemma_to_map(self.entries());
        }
        match self.find(path) {
            Some(i) => {
                let ghost old_entries = self.entries();
                self.data.remove(i);
                proof {
                    assert(self.entries() =~= old_entries.remove(i as int));
                    assert(sorted_by_path(self.entries()));
                    lemma_to_map(self.entries());
                    assert(self@ =~= old(self)@.remove(path@)) by {
                        assert forall|k: Seq<char>| #[trigger] self@.contains_key(k) <==> old(self)@.remove(path@).contains_key(k) by {
                            if self@.contains_key(k) {
                                let j = choose|j: int| 0 <= j < self.entries().len() && self.entries()[j].path == k;
                                if j < i {
                                    assert(old_entries[j].path == k);
                                    lemma_text_lt_asymmetric(k, path@);
                                } else {
                                    assert(old_entries[j + 1].path == k);
                                    lemma_text_lt_asymmetric(path@, k);
                                }
                            }
                            if old(self)@.remove(path@).contains_key(k) {
                                let j = choose|j: int| 0 <= j < old_entries.len() && old_entries[j].path == k;
                                if j < i {
                                    assert(self.entries()[j].path == k);
                                } else if j > i {
                                    assert(self.entries()[j - 1].path == k);
                                }
                            }
                        }
                        assert forall|k: Seq<char>| #[trigger] self@.contains_key(k) implies self@[k] == old(self)@.remove(path@)[k] by {
                            let j = choose|j: int| 0 <= j < self.entries().len() && self.entries()[j].path == k;
                            if j < i {
                                assert(old_entries[j] == self.entries()[j]);
                            } else {
                                assert(old_entries[j + 1] == self.entries()[j]);
                            }
                        }
                    }
                }
                true
            },
            None => {
                proof {
                    assert(old(self)@.remove(path@) =~= old(self)@);
                }
                false
            },
        }
    }

    /// Number of entries.
    pub fn size(&self) -> (r: usize)
        requires
            self.wf(),
        ensures
            r == self.entries().len(),
            r == self@.len(),
    {
        proof {
            lemma_to_map(self.entries());
            lemma_map_len(self.entries());
        }
        self.data.len()
    }

    /// Removes every entry.
    pub fn clear(&mut self)
        ensures
            final(self).wf(),
            final(self).kb_names() == old(self).kb_names(),
            final(self)@ == Map::<Seq<char>, EntryView>::empty(),
    {
        self.data = Vec::new();
        proof {
            assert(self.entries() =~= Seq::<EntryView>::empty());
        }
    }

    /// A copy of every entry, in path order.
    pub fn all_nodes(&self) -> (r: Vec<TreeNode>)
        ensures
            r@.map_values(|e: TreeNode| e@) == self.entries(),
    {
        let mut r: Vec<TreeNode> = Vec::new();
        let mut i: usize = 0;
        while i < self.data.len()
            invariant
                i <= self.data@.len(),
                r@.len() == i,
                forall|j: int| 0 <= j < i ==> (#[trigger] r@[j])@ == self.data@[j]@,
            decreases self.data@.len() - i,
        {
            r.push(self.data[i].copy());
            i = i + 1;
        }
        proof {
            assert(r@.map_values(|e: TreeNode| e@) =~= self.entries());
        }
        r
    }

    /// Every stored path, in ascending order.
    pub fn get_all_paths(&self) -> (r: Vec<String>)
        ensures
            crate::path::views(r@) == self.paths(),
    {
        let mut r: Vec<String> = Vec::new();
        let mut i: usize = 0;
        while i < self.data.len()
            invariant
                i <= self.data@.len(),
                r@.len() == i,
                forall|j: int| 0 <= j < i ==> (#[trigger] r@[j])@ == self.data@[j].path@,
            decreases self.data@.len() - i,
        {
            r.push(self.data[i].path.clone());
            i = i + 1;
        }
        proof {
            assert(crate::path::views(r@) =~= self.paths());
        }
        r
    }
}

/// A sorted sequence of entries has as many keys as entries.
pub proof fn lemma_map_len(s: Seq<EntryView>)
    requires
        sorted_by_path(s),
    ensures
        to_map(s).len() == s.len(),
    decreases s.len(),
{
    if s.len() > 0 {
        let t = s.drop_last();
        assert(sorted_by_path(t));
        lemma_map_len(t);
        lemma_to_map(t);
        lemma_to_map_finite(t);
        if to_map(t).contains_key(s.last().path) {
            let j = choose|j: int| 0 <= j < t.len() && t[j].path == s.last().path;
            lemma_text_lt_asymmetric(s[j].path, s[s.len() - 1].path);
        }
    }
}

pub proof fn lemma_to_map_finite(s: Seq<EntryView>)
    ensures
        to_map(s).dom().finite(),
    decreases s.len(),
{
    if s.len() > 0 {
        lemma_to_map_finite(s.drop_last());
    }
}

/// Which entries a scan of the store keeps.
#[derive(Clone, Copy, PartialEq, Eq, Structural)]
pub enum Selector {
    /// Paths that match a wildcard query.
    Wildcard,
    /// Paths whose labels satisfy a word predicate.
    Words,
    /// Strict ancestors of the argument.
    AncestorsOf,
    /// Strict descendants of the argument.
    DescendantsOf,
    /// The argument itself and its strict descendants.
    SubtreeOf,
}

/// Whether a scan with `sel` and argument `arg` keeps path `p`.
pub open spec fn selected(sel: Selector, arg: Seq<char>, p: Seq<char>) -> bool {
    match sel {
        Selector::Wildcard => regex_accepts(query_regex(arg), p),
        Selector::Words => word_query_holds(p, arg),
        Selector::AncestorsOf => is_ancestor(p, arg),
        Selector::DescendantsOf => is_ancestor(arg, p),
        Selector::SubtreeOf => p == arg || is_ancestor(arg, p),
    }
}

/// Whether a scan with `sel` and argument `arg` keeps path `p`.
pub fn select_one(sel: Selector, arg: &str, p: &str) -> (r: bool)
    ensures
        r == selected(sel, arg@, p@),
{
    match sel {
        Selector::Wildcard => wildcard_match(p, arg),
        Selector::Words => word_match(p, arg),
        Selector::AncestorsOf => ancestor_text(p, arg),
        Selector::DescendantsOf => ancestor_text(arg, p),
        Selector::SubtreeOf => same_text(p, arg) || ancestor_text(arg, p),
    }
}

/// What the rows of a result hold.
pub open spec fn rows(v: Seq<QueryResult>) -> Seq<EntryView> {
    v.map_values(|q: QueryResult| q@)
}

/// Paths of a sequence of entries.
pub open spec fn entry_paths(s: Seq<EntryView>) -> Seq<Seq<char>> {
    s.map_values(|e: EntryView| e.path)
}

/// Filtering keeps a sequence sorted.
pub proof fn lemma_filter_sorted(s: Seq<EntryView>, pred: spec_fn(EntryView) -> bool)
    requires
        sorted_by_path(s),
    ensures
        sorted_by_path(s.filter(pred)),
        forall|i: int| 0 <= i < s.filter(pred).len() ==> s.contains(#[trigger] s.filter(pred)[i]),
    decreases s.len(),
{
    s.filter_lemma(pred);
    reveal(Seq::filter);
    if s.len() > 0 {
        let t = s.drop_last();
        assert(sorted_by_path(t));
        lemma_filter_sorted(t, pred);
        let ft = t.filter(pred);
        assert(s.filter(pred) == (if pred(s.last()) { ft.push(s.last()) } else { ft }));
        assert forall|i: int| 0 <= i < ft.len() implies text_lt(#[trigger] ft[i].path, s.last().path) by {
            assert(t.contains(ft[i]));
            let j = choose|j: int| 0 <= j < t.len() && t[j] == ft[i];
            assert(s[j] == t[j]);
            assert(s.last() == s[s.len() - 1]);
            assert(text_lt(s[j].path, s[s.len() - 1].path));
        }
        assert forall|a: int, b: int| 0 <= a < b < s.filter(pred).len() implies text_lt(#[trigger] s.filter(pred)[a].path, #[trigger] s.filter(pred)[b].path) by {
            if b < ft.len() {
                assert(text_lt(ft[a].path, ft[b].path));
            } else {
                assert(text_lt(ft[a].path, s.last().path));
            }
        }
        assert forall|i: int| 0 <= i < s.filter(pred).len() implies s.contains(#[trigger] s.filter(pred)[i]) by {
            if i < ft.len() {
                assert(t.contains(ft[i]));
                let j = choose|j: int| 0 <= j < t.len() && t[j] == ft[i];
                assert(s[j] == t[j]);
            } else {
                assert(s[s.len() - 1] == s.last());
            }
        }
    }
}

/// A proper prefix comes first.
pub proof fn lemma_prefix_lt(a: Seq<char>, b: Seq<char>)
    requires
        a.len() < b.len(),
        b.take(a.len() as int) == a,
    ensures
        text_lt(a, b),
    decreases a.len(),
{
    if a.len() > 0 {
        assert(b.take(a.len() as int)[0] == b[0]);
        assert(b.drop_first().take(a.drop_first().len() as int) =~= a.drop_first());
        lemma_prefix_lt(a.drop_first(), b.drop_first());
    }
}

/// Of two strict ancestors of one path, the one first in path order is the shallower.
pub proof fn lemma_ancestors_by_depth(a: Seq<char>, b: Seq<char>, p: Seq<char>)
    requires
        is_ancestor(a, p),
        is_ancestor(b, p),
        text_lt(a, b),
    ensures
        depth_of(a) < depth_of(b),
{
    lemma_text_lt_asymmetric(a, b);
    if b.len() < a.len() {
        assert(a.take(b.len() as int + 1) =~= b.push('.')) by {
            assert forall|k: int| 0 <= k < b.len() + 1 implies a.take(b.len() as int + 1)[k] == b.push('.')[k] by {
                assert(p.take(a.len() as int + 1)[k] == a.push('.')[k]);
                assert(p.take(b.len() as int + 1)[k] == b.push('.')[k]);
            }
        }
        assert(a.take(b.len() as int) =~= b);
        lemma_prefix_lt(b, a);
    } else if b.len() == a.len() {
        assert(a =~= b) by {
            assert forall|k: int| 0 <= k < a.len() implies a[k] == b[k] by {
                assert(p.take(a.len() as int + 1)[k] == a.push('.')[k]);
                assert(p.take(b.len() as int + 1)[k] == b.push('.')[k]);
            }
        }
    } else {
        let rest = b.skip(a.len() as int + 1);
        assert(b =~= a + seq!['.'] + rest) by {
            assert forall|k: int| 0 <= k < a.len() + 1 implies b[k] == (a + seq!['.'] + rest)[k] by {
                assert(p.take(a.len() as int + 1)[k] == a.push('.')[k]);
                assert(p.take(b.len() as int + 1)[k] == b.push('.')[k]);
            }
        }
        crate::path::lemma_split_concat(a, rest);
        crate::path::lemma_split_nonempty(rest);
    }
}

/// The subtree of `p`: `p` itself and its strict descendants.
pub open spec fn in_subtree(p: Seq<char>, k: Seq<char>) -> bool {
    k == p || is_ancestor(p, k)
}

/// Greatest depth among `ps`; zero when there are none.
pub open spec fn max_depth_of(ps: Seq<Seq<char>>) -> nat
    decreases ps.len(),
{
    if ps.len() == 0 {
        0
    } else {
        let m = max_depth_of(ps.drop_last());
        if depth_of(ps.last()) > m {
            depth_of(ps.last())
        } else {
            m
        }
    }
}

/// Sum of the depths of `ps`.
pub open spec fn depth_total(ps: Seq<Seq<char>>) -> nat
    decreases ps.len(),
{
    if ps.len() == 0 {
        0
    } else {
        depth_total(ps.drop_last()) + depth_of(ps.last())
    }
}

/// `n`, or `usize::MAX` when `n` is larger.
pub open spec fn capped(n: nat) -> usize {
    if n <= usize::MAX {
        n as usize
    } else {
        usize::MAX
    }
}

/// Entries of `s` with no strict descendant among `all`.
pub open spec fn leaves_of(s: Seq<Seq<char>>, all: Seq<Seq<char>>) -> Seq<Seq<char>> {
    s.filter(|p: Seq<char>| !(exists|j: int| 0 <= j < all.len() && is_ancestor(p, #[trigger] all[j])))
}

/// Paths of depth one.
pub open spec fn roots_of(s: Seq<Seq<char>>) -> Seq<Seq<char>> {
    s.filter(|p: Seq<char>| depth_of(p) == 1)
}

/// Each entry of `sub` placed under `p`, stored in order; a later entry
/// replaces an earlier one at the same path.
pub open spec fn graft(m: Map<Seq<char>, EntryView>, p: Seq<char>, sub: Seq<EntryView>) -> Map<Seq<char>, EntryView>
    decreases sub.len(),
{
    if sub.len() == 0 {
        m
    } else {
        let e = sub.last();
        let k = p + seq!['.'] + e.path;
        graft(m, p, sub.drop_last()).insert(k, EntryView { path: k, ..e })
    }
}

impl BasicConstructDB {
    /// Entries kept by `sel`, in path order.
    fn collect(&self, sel: Selector, arg: &str) -> (r: Vec<QueryResult>)
        requires
            self.wf(),
        ensures
            rows(r@) == self.entries().filter(|e: EntryView| selected(sel, arg@, e.path)),
            sorted_by_path(rows(r@)),
            forall|i: int| 0 <= i < rows(r@).len() ==> selected(sel, arg@, (#[trigger] rows(r@)[i]).path),
    {
        let ghost pred = |e: EntryView| selected(sel, arg@, e.path);
        let mut r: Vec<QueryResult> = Vec::new();
        let mut i: usize = 0;
        while i < self.data.len()
            invariant
                i <= self.data@.len(),
                pred == (|e: EntryView| selected(sel, arg@, e.path)),
                rows(r@) == self.entries().take(i as int).filter(pred),
            decreases self.data@.len() - i,
        {
            let ghost before = r@;
            proof {
                reveal(Seq::filter);
                assert(self.entries().take(i + 1).drop_last() =~= self.entries().take(i as int));
                assert(self.entries().take(i + 1).last() == self.data@[i as int]@);
            }
            if select_one(sel, arg, self.data[i].path.as_str()) {
                r.push(self.data[i].to_result());
                proof {
                    assert(rows(r@) =~= rows(before).push(self.data@[i as int]@));
                }
            }
            i = i + 1;
        }
        proof {
            assert(self.entries().take(i as int) =~= self.entries());
            lemma_filter_sorted(self.entries(), pred);
            self.entries().filter_lemma(pred);
        }
        r
    }

    /// Entries whose path matches the wildcard query, in path order.
    pub fn query(&self, pattern: &str) -> (r: Vec<QueryResult>)
        requires
            self.wf(),
        ensures
            rows(r@) == self.entries().filter(|e: EntryView| selected(Selector::Wildcard, pattern@, e.path)),
            sorted_by_path(rows(r@)),
    {
        self.collect(Selector::Wildcard, pattern)
    }

    /// Entries whose labels satisfy the word predicate, in path order.
    pub fn query_ltxtquery(&self, ltxtquery: &str) -> (r: Vec<QueryResult>)
        requires
            self.wf(),
        ensures
            rows(r@) == self.entries().filter(|e: EntryView| selected(Selector::Words, ltxtquery@, e.path)),
            sorted_by_path(rows(r@)),
    {
        self.collect(Selector::Words, ltxtquery)
    }

    /// Entries related to `path1` by an operator: `@>` its strict ancestors,
    /// `<@` its strict descendants, `~` a wildcard query, `@@` a word predicate;
    /// any other operator gives nothing. The second path is not used.
    pub fn query_by_operator(&self, operator: &str, path1: &str, _path2: &str) -> (r: Vec<QueryResult>)
        requires
            self.wf(),
        ensures
            rows(r@) == (if operator@ == seq!['@', '>'] {
                self.entries().filter(|e: EntryView| selected(Selector::AncestorsOf, path1@, e.path))
            } else if operator@ == seq!['<', '@'] {
                self.entries().filter(|e: EntryView| selected(Selector::DescendantsOf, path1@, e.path))
            } else if operator@ == seq!['~'] {
                self.entries().filter(|e: EntryView| selected(Selector::Wildcard, path1@, e.path))
            } else if operator@ == seq!['@', '@'] {
                self.entries().filter(|e: EntryView| selected(Selector::Words, path1@, e.path))
            } else {
                Seq::<EntryView>::empty()
            }),
    {
        proof {
            reveal_strlit("@>");
            reveal_strlit("<@");
            reveal_strlit("~");
            reveal_strlit("@@");
            assert("@>"@ =~= seq!['@', '>']);
            assert("<@"@ =~= seq!['<', '@']);
            assert("~"@ =~= seq!['~']);
            assert("@@"@ =~= seq!['@', '@']);
        }
        if same_text(operator, "@>") {
            self.collect(Selector::AncestorsOf, path1)
        } else if same_text(operator, "<@") {
            self.collect(Selector::DescendantsOf, path1)
        } else if same_text(operator, "~") {
            self.collect(Selector::Wildcard, path1)
        } else if same_text(operator, "@@") {
            self.collect(Selector::Words, path1)
        } else {
            let r: Vec<QueryResult> = Vec::new();
            proof {
                assert(rows(r@) =~= Seq::<EntryView>::empty());
            }
            r
        }
    }

    /// Strict ancestors of `path` that are stored, shallowest first; fails on a
    /// malformed path.
    pub fn query_ancestors(&self, path: &str) -> (r: Result<Vec<QueryResult>, KbError>)
        requires
            self.wf(),
        ensures
            r is Err <==> !valid_path(path@),
            r is Err ==> r->Err_0 is InvalidPath && r->Err_0->InvalidPath_0@ == path@,
            r is Ok ==> rows(r->Ok_0@) == self.entries().filter(|e: EntryView| selected(Selector::AncestorsOf, path@, e.path)),
            r is Ok ==> forall|i: int, j: int| 0 <= i < j < rows(r->Ok_0@).len()
                ==> depth_of(#[trigger] rows(r->Ok_0@)[i].path) < depth_of(#[trigger] rows(r->Ok_0@)[j].path),
    {
        if !check_path(path) {
            return Err(KbError::InvalidPath(path.to_owned()));
        }
        let r = self.collect(Selector::AncestorsOf, path);
        proof {
            let rs = rows(r@);
            assert forall|i: int, j: int| 0 <= i < j < rs.len() implies depth_of(#[trigger] rs[i].path) < depth_of(#[trigger] rs[j].path) by {
                assert(selected(Selector::AncestorsOf, path@, rs[i].path));
                assert(selected(Selector::AncestorsOf, path@, rs[j].path));
                lemma_ancestors_by_depth(rs[i].path, rs[j].path, path@);
            }
        }
        Ok(r)
    }

    /// Strict descendants of `path` that are stored, in path order; fails on a
    /// malformed path.
    pub fn query_descendants(&self, path: &str) -> (r: Result<Vec<QueryResult>, KbError>)
        requires
            self.wf(),
        ensures
            r is Err <==> !valid_path(path@),
            r is Err ==> r->Err_0 is InvalidPath && r->Err_0->InvalidPath_0@ == path@,
            r is Ok ==> rows(r->Ok_0@) == self.entries().filter(|e: EntryView| selected(Selector::DescendantsOf, path@, e.path)),
            r is Ok ==> sorted_by_path(rows(r->Ok_0@)),
    {
        if !check_path(path) {
            return Err(KbError::InvalidPath(path.to_owned()));
        }
        Ok(self.collect(Selector::DescendantsOf, path))
    }

    /// `path` itself, if stored, and its stored strict descendants, in path
    /// order; fails on a malformed path.
    pub fn query_subtree(&self, path: &str) -> (r: Result<Vec<QueryResult>, KbError>)
        requires
            self.wf(),
        ensures
            r is Err <==> !valid_path(path@),
            r is Err ==> r->Err_0 is InvalidPath && r->Err_0->InvalidPath_0@ == path@,
            r is Ok ==> rows(r->Ok_0@) == self.entries().filter(|e: EntryView| selected(Selector::SubtreeOf, path@, e.path)),
            r is Ok ==> sorted_by_path(rows(r->Ok_0@)),
    {
        if !check_path(path) {
            return Err(KbError::InvalidPath(path.to_owned()));
        }
        Ok(self.collect(Selector::SubtreeOf, path))
    }

    /// Removes `path`, if stored, and every stored strict descendant of it;
    /// returns how many entries were removed.
    pub fn delete_subtree(&mut self, path: &str) -> (r: usize)
        requires
            old(self).wf(),
        ensures
            final(self).wf(),
            final(self).kb_names() == old(self).kb_names(),
            final(self).entries() == old(self).entries().filter(|e: EntryView| !in_subtree(path@, e.path)),
            r == old(self).entries().filter(|e: EntryView| in_subtree(path@, e.path)).len(),
    {
        let ghost keep = |e: EntryView| !in_subtree(path@, e.path);
        let ghost gone = |e: EntryView| in_subtree(path@, e.path);
        let ghost es = self.entries();
        let mut kept: Vec<TreeNode> = Vec::new();
        let mut count: usize = 0;
        let mut i: usize = 0;
        while i < self.data.len()
            invariant
                self.wf(),
                es == self.entries(),
                self.kb_dict@ == old(self).kb_dict@,
                self.data@ == old(self).data@,
                i <= self.data@.len(),
                keep == (|e: EntryView| !in_subtree(path@, e.path)),
                gone == (|e: EntryView| in_subtree(path@, e.path)),
                kept@.map_values(|e: TreeNode| e@) == es.take(i as int).filter(keep),
                count == es.take(i as int).filter(gone).len(),
                count <= i,
            decreases self.data@.len() - i,
        {
            let ghost before = kept@.map_values(|e: TreeNode| e@);
            proof {
                reveal(Seq::filter);
                assert(es.take(i + 1).drop_last() =~= es.take(i as int));
                assert(es.take(i + 1).last() == self.data@[i as int]@);
            }
            if select_one(Selector::SubtreeOf, path, self.data[i].path.as_str()) {
                count = count + 1;
            } else {
                kept.push(self.data[i].copy());
                proof {
                    assert(kept@.map_values(|e: TreeNode| e@) =~= before.push(self.data@[i as int]@));
                }
            }
            i = i + 1;
        }
        proof {
            assert(es.take(i as int) =~= es);
            lemma_filter_sorted(es, keep);
        }
        self.data = kept;
        proof {
            assert(self.entries() == es.filter(keep));
            assert forall|j: int| 0 <= j < self.entries().len() implies valid_path(#[trigger] self.entries()[j].path) by {
                assert(es.contains(self.entries()[j]));
            }
        }
        count
    }

    /// Places each entry of `subtree` under the stored `path`, keeping its value
    /// and timestamps; an entry at the same path is replaced. Fails on a malformed
    /// `path`, on one not stored, and at the first entry whose new path is
    /// malformed, with the entries before it placed.
    pub fn add_subtree(&mut self, path: &str, subtree: &[QueryResult]) -> (r: Result<(), KbError>)
        requires
            old(self).wf(),
        ensures
            final(self).wf(),
            final(self).kb_names() == old(self).kb_names(),
            !valid_path(path@) ==> r is Err && r->Err_0 is InvalidPath && r->Err_0->InvalidPath_0@ == path@
                && final(self)@ == old(self)@,
            valid_path(path@) && !old(self)@.contains_key(path@) ==> r is Err && r->Err_0 is PathNotFound
                && r->Err_0->PathNotFound_0@ == path@ && final(self)@ == old(self)@,
            valid_path(path@) && old(self)@.contains_key(path@) ==> {
                let sub = rows(subtree@);
                &&& (r is Ok <==> forall|i: int| 0 <= i < sub.len() ==> valid_path(path@ + seq!['.'] + (#[trigger] sub[i]).path))
                &&& r is Ok ==> final(self)@ == graft(old(self)@, path@, sub)
                &&& r is Err ==> r->Err_0 is InvalidPath && exists|k: int| 0 <= k < sub.len()
                    && !valid_path(path@ + seq!['.'] + sub[k].path)
                    && r->Err_0->InvalidPath_0@ == path@ + seq!['.'] + sub[k].path
                    && (forall|i: int| 0 <= i < k ==> valid_path(path@ + seq!['.'] + (#[trigger] sub[i]).path))
                    && final(self)@ == graft(old(self)@, path@, sub.take(k))
            },
    {
        if !check_path(path) {
            return Err(KbError::InvalidPath(path.to_owned()));
        }
        if !self.contains_path(path) {
            return Err(KbError::PathNotFound(path.to_owned()));
        }
        let ghost sub = rows(subtree@);
        let mut i: usize = 0;
        proof {
            assert(sub.take(0) =~= Seq::<EntryView>::empty());
        }
        while i < subtree.len()
            invariant
                self.wf(),
                self.kb_names() == old(self).kb_names(),
                sub == rows(subtree@),
                valid_path(path@),
                old(self)@.contains_key(path@),
                i <= subtree@.len(),
                self@ == graft(old(self)@, path@, sub.take(i as int)),
                forall|k: int| 0 <= k < i ==> valid_path(path@ + seq!['.'] + (#[trigger] sub[k]).path),
            decreases subtree@.len() - i,
        {
            let node = &subtree[i];
            let mut new_path = path.to_owned();
            new_path.append(".");
            new_path.append(node.path.as_str());
            proof {
                reveal_strlit(".");
                assert(sub.take(i + 1).drop_last() =~= sub.take(i as int));
                assert(sub.take(i + 1).last() == sub[i as int]);
                assert(new_path@ =~= path@ + seq!['.'] + sub[i as int].path);
            }
            let res = self.store(new_path.as_str(), node.data.clone(), clone_opt(&node.created_at), clone_opt(&node.updated_at));
            if res.is_err() {
                return Err(KbError::InvalidPath(new_path));
            }
            proof {
                let e = sub[i as int];
                assert(self@ == graft(old(self)@, path@, sub.take(i + 1)));
            }
            i = i + 1;
        }
        proof {
            assert(sub.take(i as int) =~= sub);
        }
        Ok(())
    }

    /// Counts over the stored paths.
    pub fn get_stats(&self) -> (r: TreeStats)
        requires
            self.wf(),
        ensures
            r.total_nodes == self.paths().len(),
            r.max_depth == max_depth_of(self.paths()),
            r.depth_sum == capped(depth_total(self.paths())),
            r.root_nodes == roots_of(self.paths()).len(),
            r.leaf_nodes == leaves_of(self.paths(), self.paths()).len(),
    {
        let ghost ps = self.paths();
        let n = self.data.len();
        let mut max_depth: usize = 0;
        let mut depth_sum: usize = 0;
        let mut roots: usize = 0;
        let mut leaves: usize = 0;
        let mut i: usize = 0;
        while i < n
            invariant
                ps == self.paths(),
                n == ps.len(),
                i <= n,
                max_depth == max_depth_of(ps.take(i as int)),
                depth_sum == capped(depth_total(ps.take(i as int))),
                roots == roots_of(ps.take(i as int)).len(),
                leaves == leaves_of(ps.take(i as int), ps).len(),
                roots <= i,
                leaves <= i,
            decreases n - i,
        {
            let p = self.data[i].path.as_str();
            proof {
                reveal(Seq::filter);
                assert(ps.take(i + 1).drop_last() =~= ps.take(i as int));
                assert(ps.take(i + 1).last() == ps[i as int]);
                assert(ps[i as int] == p@);
            }
            let d = depth(p);
            if d > usize::MAX - depth_sum {
                depth_sum = usize::MAX;
            } else {
                depth_sum = depth_sum + d;
            }
            if d > max_depth {
                max_depth = d;
            }
            if d == 1 {
                roots = roots + 1;
            }
            let mut has_child = false;
            let mut j: usize = 0;
            while j < n
                invariant
                    ps == self.paths(),
                    n == ps.len(),
                    j <= n,
                    i < n,
                    p@ == ps[i as int],
                    has_child == (exists|t: int| 0 <= t < j && is_ancestor(p@, #[trigger] ps[t])),
                decreases n - j,
            {
                proof {
                    assert(ps[j as int] == self.data@[j as int].path@);
                }
                if ancestor_text(p, self.data[j].path.as_str()) {
                    has_child = true;
                }
                j = j + 1;
            }
            if !has_child {
                leaves = leaves + 1;
            }
            i = i + 1;
        }
        proof {
            assert(ps.take(n as int) =~= ps);
        }
        TreeStats { total_nodes: n, max_depth, depth_sum, root_nodes: roots, leaf_nodes: leaves }
    }
}

/// After a `store` of `e` at `p`, a lookup at `p` finds `e`; after a `delete`
/// of `p`, nothing is stored at `p`.
pub proof fn law_store_get_delete(m: Map<Seq<char>, EntryView>, p: Seq<char>, e: EntryView)
    ensures
        m.insert(p, e).contains_key(p),
        m.insert(p, e)[p] == e,
        !m.remove(p).contains_key(p),
{
}

/// Deleting the subtree of `p` removes exactly `p`, if stored, and its stored
/// strict descendants, leaves every other entry as it was, and the count it
/// returns is the number of stored paths it removed.
pub proof fn law_delete_subtree(before: BasicConstructDB, after: BasicConstructDB, p: Seq<char>, r: int)
    requires
        before.wf(),
        after.entries() == before.entries().filter(|e: EntryView| !in_subtree(p, e.path)),
        r == before.entries().filter(|e: EntryView| in_subtree(p, e.path)).len(),
    ensures
        forall|k: Seq<char>| #[trigger] after@.contains_key(k) <==> before@.contains_key(k) && !in_subtree(p, k),
        forall|k: Seq<char>| #[trigger] after@.contains_key(k) ==> after@[k] == before@[k],
        r == before@.dom().filter(|k: Seq<char>| in_subtree(p, k)).len(),
{
    let s = before.entries();
    let keep = |e: EntryView| !in_subtree(p, e.path);
    let gone = |e: EntryView| in_subtree(p, e.path);
    let f = s.filter(keep);
    let g = s.filter(gone);
    lemma_filter_sorted(s, keep);
    lemma_filter_sorted(s, gone);
    s.filter_lemma(keep);
    s.filter_lemma(gone);
    lemma_to_map(s);
    lemma_to_map(f);
    assert forall|k: Seq<char>| #[trigger] after@.contains_key(k) implies before@.contains_key(k) && !in_subtree(p, k) && after@[k] == before@[k] by {
        let i = choose|i: int| 0 <= i < f.len() && f[i].path == k;
        assert(s.contains(f[i]));
        let j = choose|j: int| 0 <= j < s.len() && s[j] == f[i];
        assert(keep(f[i]));
        assert(before@[s[j].path] == s[j]);
        assert(after@[f[i].path] == f[i]);
    }
    assert forall|k: Seq<char>| before@.contains_key(k) && !in_subtree(p, k) implies #[trigger] after@.contains_key(k) by {
        let j = choose|j: int| 0 <= j < s.len() && s[j].path == k;
        assert(keep(s[j]));
        assert(f.contains(s[j]));
        let i = choose|i: int| 0 <= i < f.len() && f[i] == s[j];
        assert(f[i].path == k);
    }
    let ks = entry_paths(g);
    assert(ks.no_duplicates()) by {
        assert forall|a: int, b: int| 0 <= a < ks.len() && 0 <= b < ks.len() && a != b implies ks[a] != ks[b] by {
            if a < b {
                lemma_text_lt_asymmetric(g[a].path, g[b].path);
            } else {
                lemma_text_lt_asymmetric(g[b].path, g[a].path);
            }
        }
    }
    ks.unique_seq_to_set();
    assert(ks.to_set() =~= before@.dom().filter(|k: Seq<char>| in_subtree(p, k))) by {
        assert forall|k: Seq<char>| ks.to_set().contains(k) implies before@.dom().filter(|k: Seq<char>| in_subtree(p, k)).contains(k) by {
            let i = choose|i: int| 0 <= i < ks.len() && ks[i] == k;
            assert(s.contains(g[i]));
            let j = choose|j: int| 0 <= j < s.len() && s[j] == g[i];
            assert(gone(g[i]));
            assert(before@.contains_key(s[j].path));
        }
        assert forall|k: Seq<char>| before@.dom().filter(|k: Seq<char>| in_subtree(p, k)).contains(k) implies ks.to_set().contains(k) by {
            let j = choose|j: int| 0 <= j < s.len() && s[j].path == k;
            assert(gone(s[j]));
            assert(g.contains(s[j]));
            let i = choose|i: int| 0 <= i < g.len() && g[i] == s[j];
            assert(ks[i] == k);
        }
    }
}

impl BasicConstructDB {
    /// Whether `path` is well formed.
    pub fn validate_path(&self, path: &str) -> (r: bool)
        ensures
            r == valid_path(path@),
    {
        check_path(path)
    }

    /// Number of labels of `path`.
    pub fn path_depth(&self, path: &str) -> (r: usize)
        ensures
            r == depth_of(path@),
    {
        depth(path)
    }

    /// Labels of `path`.
    pub fn path_labels(&self, path: &str) -> (r: Vec<String>)
        ensures
            views(r@) == split_dots(path@),
    {
        split_labels(path)
    }

    /// Labels from `start` (counted from the end when negative) on, `length` of
    /// them or to the end, joined.
    pub fn subpath(&self, path: &str, start: i32, length: Option<i32>) -> (r: String)
        requires
            depth_of(path@) <= i32::MAX,
            0 <= subpath_start(depth_of(path@) as int, start as int) <= depth_of(path@),
            length is Some ==> length->0 >= 0,
        ensures
            ({
                let d = depth_of(path@) as int;
                let s = subpath_start(d, start as int);
                r@ == join_dots(split_dots(path@).subrange(s, subpath_end(d, s, length)))
            }),
    {
        subpath_of(path, start, length)
    }

    /// The same as `subpath`.
    pub fn subpath_func(&self, path: &str, offset: i32, length: Option<i32>) -> (r: String)
        requires
            depth_of(path@) <= i32::MAX,
            0 <= subpath_start(depth_of(path@) as int, offset as int) <= depth_of(path@),
            length is Some ==> length->0 >= 0,
        ensures
            ({
                let d = depth_of(path@) as int;
                let s = subpath_start(d, offset as int);
                r@ == join_dots(split_dots(path@).subrange(s, subpath_end(d, s, length)))
            }),
    {
        subpath_of(path, offset, length)
    }

    /// Anchored regular expression for a wildcard query.
    pub fn convert_ltree_query_to_regex(&self, query: &str) -> (r: String)
        ensures
            r@ == query_regex(query@),
    {
        query_to_regex(query)
    }

    /// Whether `path` matches the wildcard query.
    pub fn ltree_match(&self, path: &str, query: &str) -> (r: bool)
        ensures
            r == regex_accepts(query_regex(query@), path@),
    {
        wildcard_match(path, query)
    }

    /// Whether the labels of `path` satisfy the word predicate.
    pub fn ltxtquery_match(&self, path: &str, ltxtquery: &str) -> (r: bool)
        ensures
            r == word_query_holds(path@, ltxtquery@),
    {
        word_match(path, ltxtquery)
    }

    /// Whether `ancestor` is a strict ancestor of `descendant`.
    pub fn ltree_ancestor(&self, ancestor: &str, descendant: &str) -> (r: bool)
        ensures
            r == is_ancestor(ancestor@, descendant@),
    {
        ancestor_text(ancestor, descendant)
    }

    /// Whether `descendant` is a strict descendant of `ancestor`.
    pub fn ltree_descendant(&self, descendant: &str, ancestor: &str) -> (r: bool)
        ensures
            r == is_descendant(descendant@, ancestor@),
    {
        ancestor_text(ancestor, descendant)
    }

    /// Whether `ancestor` is `descendant` or a strict ancestor of it.
    pub fn ltree_ancestor_or_equal(&self, ancestor: &str, descendant: &str) -> (r: bool)
        ensures
            r == is_ancestor_or_equal(ancestor@, descendant@),
    {
        same_text(ancestor, descendant) || ancestor_text(ancestor, descendant)
    }

    /// Whether `descendant` is `ancestor` or a strict descendant of it.
    pub fn ltree_descendant_or_equal(&self, descendant: &str, ancestor: &str) -> (r: bool)
        ensures
            r == is_descendant_or_equal(descendant@, ancestor@),
    {
        same_text(descendant, ancestor) || ancestor_text(ancestor, descendant)
    }

    /// The two paths joined by a dot; an empty operand gives the other.
    pub fn ltree_concatenate(&self, path1: &str, path2: &str) -> (r: String)
        ensures
            r@ == concat_spec(path1@, path2@),
    {
        concat_paths(path1, path2)
    }

    /// Number of labels of `path`.
    pub fn nlevel(&self, path: &str) -> (r: usize)
        ensures
            r == depth_of(path@),
    {
        depth(path)
    }

    /// Labels `start..end` joined, clamped to the path.
    pub fn subltree(&self, path: &str, start: usize, end: usize) -> (r: String)
        ensures
            ({
                let (lo, hi) = subltree_range(depth_of(path@) as int, start as int, end as int);
                r@ == join_dots(split_dots(path@).subrange(lo, hi))
            }),
    {
        subltree_of(path, start, end)
    }

    /// First label position at or after `offset` where the labels of `subpath`
    /// stand contiguously in those of `path`.
    pub fn index_func(&self, path: &str, subpath: &str, offset: usize) -> (r: Option<usize>)
        ensures
            match r {
                Some(i) => offset <= i && occurs_at(split_dots(path@), split_dots(subpath@), i as int)
                    && forall|k: int| offset <= k < i ==> !occurs_at(split_dots(path@), split_dots(subpath@), k),
                None => forall|k: int| offset <= k ==> !occurs_at(split_dots(path@), split_dots(subpath@), k),
            },
    {
        index_of(path, subpath, offset)
    }

    /// The text itself if it is a well-formed path, else a validation error.
    pub fn text2ltree(&self, text: &str) -> (r: Result<String, KbError>)
        ensures
            r is Ok <==> valid_path(text@),
            r is Ok ==> r->Ok_0@ == text@,
            r is Err ==> r->Err_0 is ValidationError && r->Err_0->ValidationError_0@ == text@,
    {
        if check_path(text) {
            Ok(text.to_owned())
        } else {
            Err(KbError::ValidationError(text.to_owned()))
        }
    }

    /// The path as plain text.
    pub fn ltree2text(&self, ltree_path: &str) -> (r: String)
        ensures
            r@ == ltree_path@,
    {
        ltree_path.to_owned()
    }

    /// Least common ancestor of `paths`: their longest common run of leading
    /// labels; none for no paths or no common label.
    pub fn lca(&self, paths: &[String]) -> (r: Option<String>)
        ensures
            match (r, lca_spec(paths@.map_values(|p: String| p@))) {
                (Some(a), Some(b)) => a@ == b,
                (None, None) => true,
                _ => false,
            },
    {
        lca_of(paths)
    }
}

/// The store after each row with a well-formed path is stored in order; rows
/// with a malformed path are skipped.
pub open spec fn imported(m: Map<Seq<char>, EntryView>, rs: Seq<EntryView>) -> Map<Seq<char>, EntryView>
    decreases rs.len(),
{
    if rs.len() == 0 {
        m
    } else {
        let m0 = imported(m, rs.drop_last());
        if valid_path(rs.last().path) {
            m0.insert(rs.last().path, rs.last())
        } else {
            m0
        }
    }
}

/// Whether a row has a well-formed path.
pub open spec fn row_ok(e: EntryView) -> bool {
    valid_path(e.path)
}

/// Which directions a synchronisation runs: import for `import` or `both`,
/// export for `export` or `both`.
pub open spec fn sync_plan(direction: Seq<char>) -> (bool, bool) {
    let both = direction == seq!['b', 'o', 't', 'h'];
    (
        direction == seq!['i', 'm', 'p', 'o', 'r', 't'] || both,
        direction == seq!['e', 'x', 'p', 'o', 'r', 't'] || both,
    )
}

/// The directions a synchronisation in `direction` runs: (import, export).
pub fn sync_directions(direction: &str) -> (r: (bool, bool))
    ensures
        r == sync_plan(direction@),
{
    proof {
        reveal_strlit("import");
        reveal_strlit("export");
        reveal_strlit("both");
        assert("import"@ =~= seq!['i', 'm', 'p', 'o', 'r', 't']);
        assert("export"@ =~= seq!['e', 'x', 'p', 'o', 'r', 't']);
        assert("both"@ =~= seq!['b', 'o', 't', 'h']);
    }
    let both = same_text(direction, "both");
    (same_text(direction, "import") || both, same_text(direction, "export") || both)
}

impl BasicConstructDB {
    /// Stores each row read from the backing store, skipping rows with a
    /// malformed path; returns how many were stored.
    pub fn import_rows(&mut self, rows_in: &[QueryResult]) -> (r: usize)
        requires
            old(self).wf(),
        ensures
            final(self).wf(),
            final(self).kb_names() == old(self).kb_names(),
            final(self)@ == imported(old(self)@, rows(rows_in@)),
            r == rows(rows_in@).filter(|e: EntryView| row_ok(e)).len(),
    {
        let ghost rs = rows(rows_in@);
        let ghost ok = |e: EntryView| row_ok(e);
        let mut count: usize = 0;
        let mut i: usize = 0;
        proof {
            assert(rs.take(0) =~= Seq::<EntryView>::empty());
            reveal(Seq::filter);
        }
        while i < rows_in.len()
            invariant
                self.wf(),
                self.kb_names() == old(self).kb_names(),
                rs == rows(rows_in@),
                ok == (|e: EntryView| row_ok(e)),
                i <= rows_in@.len(),
                self@ == imported(old(self)@, rs.take(i as int)),
                count == rs.take(i as int).filter(ok).len(),
                count <= i,
            decreases rows_in@.len() - i,
        {
            let row = &rows_in[i];
            proof {
                reveal(Seq::filter);
                assert(rs.take(i + 1).drop_last() =~= rs.take(i as int));
                assert(rs.take(i + 1).last() == row@);
            }
            let res = self.store(row.path.as_str(), row.data.clone(), clone_opt(&row.created_at), clone_opt(&row.updated_at));
            if res.is_ok() {
                count = count + 1;
            }
            proof {
                assert(self@ == imported(old(self)@, rs.take(i + 1)));
            }
            i = i + 1;
        }
        proof {
            assert(rs.take(i as int) =~= rs);
        }
        count
    }
}

} // verus!
