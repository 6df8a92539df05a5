use vstd::prelude::*;
use crate::path::{views, split_dots, split_labels, same_text, copy_strings};
use crate::store::{
    BasicConstructDB, EntryView, KbError, TreeNode, Selector, selected, select_one, in_subtree,
};
use crate::json::{json_member, json_normal, json_string_content, member, normal, string_content};

verus! {

/// Failures of the search index.
#[derive(Debug)]
pub enum SearchMemError {
    Basic(KbError),
    ImportFailed(String),
    QueryFailed(String),
}

/// The text that describes a failure of the search index.
pub open spec fn search_error_text(e: SearchMemError) -> Seq<char> {
    match e {
        SearchMemError::Basic(b) => "Basic DB error: "@ + crate::store::kb_error_text(b),
        SearchMemError::ImportFailed(m) => "Failed to import from postgres: "@ + m@,
        SearchMemError::QueryFailed(m) => "Error querying: "@ + m@,
    }
}

impl SearchMemError {
    /// The text that describes the failure.
    pub fn message(&self) -> (r: String)
        ensures
            r@ == search_error_text(*self),
    {
        match self {
            SearchMemError::Basic(b) => {
                let mut r = "Basic DB error: ".to_owned();
                r.append(b.message().as_str());
                r
            },
            SearchMemError::ImportFailed(m) => {
                let mut r = "Failed to import from postgres: ".to_owned();
                r.append(m.as_str());
                r
            },
            SearchMemError::QueryFailed(m) => {
                let mut r = "Error querying: ".to_owned();
                r.append(m.as_str());
                r
            },
        }
    }
}

/// Which label of a path an index is keyed by.
#[derive(Clone, Copy, PartialEq, Eq, Structural)]
pub enum Part {
    /// The first label: the knowledge base.
    Kb,
    /// The second-to-last label.
    Label,
    /// The last label.
    Name,
}

/// The index key of a path: paths of fewer than three labels have none.
pub open spec fn part_key(p: Seq<char>, part: Part) -> Option<Seq<char>> {
    let ls = split_dots(p);
    if ls.len() < 3 {
        None
    } else {
        match part {
            Part::Kb => Some(ls[0]),
            Part::Label => Some(ls[ls.len() - 2]),
            Part::Name => Some(ls[ls.len() - 1]),
        }
    }
}

/// First bucket at or after `j` with key `k`, or the number of buckets.
pub open spec fn find_key(acc: Seq<(Seq<char>, Seq<Seq<char>>)>, k: Seq<char>, j: int) -> int
    decreases acc.len() - j,
{
    if j < 0 || j >= acc.len() {
        acc.len() as int
    } else if acc[j].0 == k {
        j
    } else {
        find_key(acc, k, j + 1)
    }
}

/// `p` added to the bucket of `k`, which is opened at the end if new.
pub open spec fn add_to_bucket(acc: Seq<(Seq<char>, Seq<Seq<char>>)>, k: Seq<char>, p: Seq<char>) -> Seq<(Seq<char>, Seq<Seq<char>>)> {
    let j = find_key(acc, k, 0);
    if j < acc.len() {
        acc.update(j, (k, acc[j].1.push(p)))
    } else {
        acc.push((k, seq![p]))
    }
}

/// The buckets of an index over `paths`: each key with the paths that have
/// it, keys in order of first appearance, paths in the order given.
pub open spec fn buckets_of(paths: Seq<Seq<char>>, part: Part) -> Seq<(Seq<char>, Seq<Seq<char>>)>
    decreases paths.len(),
{
    if paths.len() == 0 {
        Seq::empty()
    } else {
        let acc = buckets_of(paths.drop_last(), part);
        match part_key(paths.last(), part) {
            None => acc,
            Some(k) => add_to_bucket(acc, k, paths.last()),
        }
    }
}

proof fn lemma_find_key(acc: Seq<(Seq<char>, Seq<Seq<char>>)>, k: Seq<char>, j: int)
    requires
        0 <= j <= acc.len(),
    ensures
        j <= find_key(acc, k, j) <= acc.len(),
        find_key(acc, k, j) < acc.len() ==> acc[find_key(acc, k, j)].0 == k,
        forall|q: int| j <= q < find_key(acc, k, j) ==> acc[q].0 != k,
    decreases acc.len() - j,
{
    if j < acc.len() && acc[j].0 != k {
        lemma_find_key(acc, k, j + 1);
    }
}

/// An index: keys with the paths filed under each.
pub struct Buckets {
    entries: Vec<(String, Vec<String>)>,
}

impl View for Buckets {
    type V = Seq<(Seq<char>, Seq<Seq<char>>)>;

    closed spec fn view(&self) -> Seq<(Seq<char>, Seq<Seq<char>>)> {
        self.entries@.map_values(|b: (String, Vec<String>)| (b.0@, views(b.1@)))
    }
}

impl Buckets {
    /// Builds the index keyed by `part` over `paths`.
    pub fn build(paths: &Vec<String>, part: Part) -> (r: Buckets)
        ensures
            r@ == buckets_of(views(paths@), part),
    {
        let ghost ps = views(paths@);
        let mut b = Buckets { entries: Vec::new() };
        let mut i: usize = 0;
        proof {
            assert(ps.take(0) =~= Seq::<Seq<char>>::empty());
            assert(b@ =~= Seq::<(Seq<char>, Seq<Seq<char>>)>::empty());
        }
        while i < paths.len()
            invariant
                i <= paths@.len(),
                ps == views(paths@),
                b@ == buckets_of(ps.take(i as int), part),
            decreases paths@.len() - i,
        {
            let p = &paths[i];
            proof {
                assert(ps.take(i + 1).drop_last() =~= ps.take(i as int));
                assert(ps.take(i + 1).last() == p@);
            }
            match key_of(p.as_str(), part) {
                None => {},
                Some(k) => {
                    let ghost acc = b@;
                    let mut j: usize = 0;
                    while j < b.entries.len() && !same_text(b.entries[j].0.as_str(), k.as_str())
                        invariant
                            acc == b@,
                            j <= b.entries@.len(),
                            find_key(acc, k@, j as int) == find_key(acc, k@, 0),
                        decreases b.entries@.len() - j,
                    {
                        proof {
                            assert(acc[j as int].0 == b.entries@[j as int].0@);
                        }
                        j = j + 1;
                    }
                    proof {
                        lemma_find_key(acc, k@, 0);
                        if j < b.entries@.len() {
                            assert(acc[j as int].0 == b.entries@[j as int].0@);
                        }
                    }
                    if j < b.entries.len() {
                        let ghost old_paths = b.entries@[j as int].1@;
                        b.entries[j].1.push(p.clone());
                        proof {
                            assert(views(b.entries@[j as int].1@) =~= views(old_paths).push(p@));
                            assert(acc[j as int].1 == views(old_paths));
                            assert(b@ =~= acc.update(j as int, (k@, acc[j as int].1.push(p@))));
                        }
                    } else {
                        let mut v: Vec<String> = Vec::new();
                        v.push(p.clone());
                        b.entries.push((k, v));
                        proof {
                            assert(views(v@) =~= seq![p@]);
                            assert(b@ =~= acc.push((k@, seq![p@])));
                        }
                    }
                },
            }
            i = i + 1;
        }
        proof {
            assert(ps.take(i as int) =~= ps);
        }
        b
    }

    /// Whether some bucket has key `k`.
    pub fn contains_key(&self, k: &str) -> (r: bool)
        ensures
            r == exists|j: int| 0 <= j < self@.len() && (#[trigger] self@[j]).0 == k@,
    {
        let mut j: usize = 0;
        while j < self.entries.len()
            invariant
                j <= self.entries@.len(),
                forall|q: int| 0 <= q < j ==> (#[trigger] self@[q]).0 != k@,
            decreases self.entries@.len() - j,
        {
            proof {
                assert(self@[j as int].0 == self.entries@[j as int].0@);
            }
            if same_text(self.entries[j].0.as_str(), k) {
                return true;
            }
            j = j + 1;
        }
        false
    }

    /// Number of keys.
    pub fn len(&self) -> (r: usize)
        ensures
            r == self@.len(),
    {
        self.entries.len()
    }

    /// The paths filed under `k`.
    pub fn get(&self, k: &str) -> (r: Option<Vec<String>>)
        ensures
            match r {
                Some(v) => exists|j: int| 0 <= j < self@.len() && (#[trigger] self@[j]).0 == k@ && self@[j].1 == views(v@),
                None => forall|j: int| 0 <= j < self@.len() ==> (#[trigger] self@[j]).0 != k@,
            },
    {
        let mut j: usize = 0;
        while j < self.entries.len()
            invariant
                j <= self.entries@.len(),
                forall|q: int| 0 <= q < j ==> (#[trigger] self@[q]).0 != k@,
            decreases self.entries@.len() - j,
        {
            proof {
                assert(self@[j as int] == (self.entries@[j as int].0@, views(self.entries@[j as int].1@)));
            }
            if same_text(self.entries[j].0.as_str(), k) {
                let v = copy_strings(&self.entries[j].1);
                return Some(v);
            }
            j = j + 1;
        }
        None
    }
}

/// The index key of `p` for `part`.
fn key_of(p: &str, part: Part) -> (r: Option<String>)
    ensures
        match (r, part_key(p@, part)) {
            (Some(a), Some(b)) => a@ == b,
            (None, None) => true,
            _ => false,
        },
{
    let ls = split_labels(p);
    let n = ls.len();
    if n < 3 {
        return None;
    }
    proof {
        assert(views(ls@)[0] == ls@[0]@);
        assert(views(ls@)[n - 2] == ls@[n - 2]@);
        assert(views(ls@)[n - 1] == ls@[n - 1]@);
    }
    match part {
        Part::Kb => Some(ls[0].clone()),
        Part::Label => Some(ls[n - 2].clone()),
        Part::Name => Some(ls[n - 1].clone()),
    }
}

/// The working set of a search session.
pub struct FilterSet {
    nodes: Vec<TreeNode>,
}

impl View for FilterSet {
    type V = Seq<EntryView>;

    closed spec fn view(&self) -> Seq<EntryView> {
        self.nodes@.map_values(|e: TreeNode| e@)
    }
}

impl FilterSet {
    /// Number of entries.
    pub fn len(&self) -> (r: usize)
        ensures
            r == self@.len(),
    {
        self.nodes.len()
    }

    /// Whether an entry with path `k` is in the set.
    pub fn contains_key(&self, k: &str) -> (r: bool)
        ensures
            r == exists|j: int| 0 <= j < self@.len() && (#[trigger] self@[j]).path == k@,
    {
        let mut j: usize = 0;
        while j < self.nodes.len()
            invariant
                j <= self.nodes@.len(),
                forall|q: int| 0 <= q < j ==> (#[trigger] self@[q]).path != k@,
            decreases self.nodes@.len() - j,
        {
            proof {
                assert(self@[j as int] == self.nodes@[j as int]@);
            }
            if same_text(self.nodes[j].path.as_str(), k) {
                return true;
            }
            j = j + 1;
        }
        false
    }

    /// Paths of the entries, in order.
    pub fn keys(&self) -> (r: Vec<String>)
        ensures
            views(r@) == self@.map_values(|e: EntryView| e.path),
    {
        let mut r: Vec<String> = Vec::new();
        let mut j: usize = 0;
        while j < self.nodes.len()
            invariant
                j <= self.nodes@.len(),
                r@.len() == j,
                forall|q: int| 0 <= q < j ==> (#[trigger] r@[q])@ == self.nodes@[q].path@,
            decreases self.nodes@.len() - j,
        {
            r.push(self.nodes[j].path.clone());
            j = j + 1;
        }
        proof {
            assert(views(r@) =~= self@.map_values(|e: EntryView| e.path));
        }
        r
    }

    /// A copy of the set.
    pub fn copy(&self) -> (r: FilterSet)
        ensures
            r@ == self@,
    {
        let mut nodes: Vec<TreeNode> = Vec::new();
        let mut j: usize = 0;
        while j < self.nodes.len()
            invariant
                j <= self.nodes@.len(),
                nodes@.len() == j,
                forall|q: int| 0 <= q < j ==> (#[trigger] nodes@[q])@ == self.nodes@[q]@,
            decreases self.nodes@.len() - j,
        {
            nodes.push(self.nodes[j].copy());
            j = j + 1;
        }
        let r = FilterSet { nodes };
        proof {
            assert(r@ =~= self@);
        }
        r
    }
}

/// How a search step narrows the session.
#[derive(Clone, Copy, PartialEq, Eq, Structural)]
pub enum Narrow {
    Kb,
    Label,
    Name,
    PropertyKey,
    PropertyValue,
    Path,
}

/// Whether an operator query keeps path `p`: `@>` strict ancestors of `arg`,
/// `<@` strict descendants, `~` a wildcard query, `@@` a word predicate.
pub open spec fn operator_keeps(op: Seq<char>, arg: Seq<char>, p: Seq<char>) -> bool {
    if op == seq!['@', '>'] {
        selected(Selector::AncestorsOf, arg, p)
    } else if op == seq!['<', '@'] {
        selected(Selector::DescendantsOf, arg, p)
    } else if op == seq!['~'] {
        selected(Selector::Wildcard, arg, p)
    } else if op == seq!['@', '@'] {
        selected(Selector::Words, arg, p)
    } else {
        false
    }
}

/// Whether a search step keeps entry `e`; `a` is the value searched for (the
/// property key, or the operator), `b` the property value or the path.
pub open spec fn narrow_keeps(how: Narrow, a: Seq<char>, b: Seq<char>, e: EntryView) -> bool {
    match how {
        Narrow::Kb => part_key(e.path, Part::Kb) == Some(a),
        Narrow::Label => part_key(e.path, Part::Label) == Some(a),
        Narrow::Name => part_key(e.path, Part::Name) == Some(a),
        Narrow::PropertyKey => json_member(e.data, a) is Some,
        Narrow::PropertyValue => json_member(e.data, a) is Some && json_member(e.data, a) == json_normal(b),
        Narrow::Path => operator_keeps(a, b, e.path),
    }
}

fn keeps(how: Narrow, a: &str, b: &str, e: &TreeNode) -> (r: bool)
    ensures
        r == narrow_keeps(how, a@, b@, e@),
{
    match how {
        Narrow::Kb | Narrow::Label | Narrow::Name => {
            let part = match how {
                Narrow::Kb => Part::Kb,
                Narrow::Label => Part::Label,
                _ => Part::Name,
            };
            match key_of(e.path.as_str(), part) {
                Some(k) => same_text(k.as_str(), a),
                None => false,
            }
        },
        Narrow::PropertyKey => member(e.data.as_str(), a).is_some(),
        Narrow::PropertyValue => {
            match (member(e.data.as_str(), a), normal(b)) {
                (Some(x), Some(y)) => same_text(x.as_str(), y.as_str()),
                _ => false,
            }
        },
        Narrow::Path => {
            proof {
                reveal_strlit("@>");
                reveal_strlit("<@");
                reveal_strlit("~");
                reveal_strlit("@@");
                assert("@>"@ =~= seq!['@', '>']);
                assert("<@"@ =~= seq!['<', '@']);
                assert("~"@ =~= seq!['~']);
                assert("@@"@ =~= seq!['@', '@']);
            }
            if same_text(a, "@>") {
                select_one(Selector::AncestorsOf, b, e.path.as_str())
            } else if same_text(a, "<@") {
                select_one(Selector::DescendantsOf, b, e.path.as_str())
            } else if same_text(a, "~") {
                select_one(Selector::Wildcard, b, e.path.as_str())
            } else if same_text(a, "@@") {
                select_one(Selector::Words, b, e.path.as_str())
            } else {
                false
            }
        },
    }
}

/// The path of each decoded key with its labels.
pub open spec fn decoded_of(paths: Seq<Seq<char>>) -> Seq<(Seq<char>, Seq<Seq<char>>)> {
    paths.map_values(|p: Seq<char>| (p, split_dots(p)))
}

/// Counts over a search index.
#[derive(Clone, Copy, Debug)]
pub struct SearchStats {
    pub total_items: usize,
    pub filter_results: usize,
    pub knowledge_bases: usize,
    pub unique_labels: usize,
    pub unique_names: usize,
}

/// A path store with indices by knowledge base, label and name, and a search
/// session that each search step narrows.
pub struct SearchMemDB {
    basic_db: BasicConstructDB,
    kbs: Buckets,
    labels: Buckets,
    names: Buckets,
    decoded_keys: Vec<(String, Vec<String>)>,
    filter_results: FilterSet,
}

impl SearchMemDB {
    /// The path store underneath.
    pub closed spec fn db(&self) -> BasicConstructDB {
        self.basic_db
    }

    /// The entries of the search session.
    pub closed spec fn session(&self) -> Seq<EntryView> {
        self.filter_results@
    }

    /// The index by knowledge base.
    pub closed spec fn kb_index(&self) -> Seq<(Seq<char>, Seq<Seq<char>>)> {
        self.kbs@
    }

    /// The index by second-to-last label.
    pub closed spec fn label_index(&self) -> Seq<(Seq<char>, Seq<Seq<char>>)> {
        self.labels@
    }

    /// The index by last label.
    pub closed spec fn name_index(&self) -> Seq<(Seq<char>, Seq<Seq<char>>)> {
        self.names@
    }

    /// Every stored path with its labels.
    pub closed spec fn decoded(&self) -> Seq<(Seq<char>, Seq<Seq<char>>)> {
        self.decoded_keys@.map_values(|d: (String, Vec<String>)| (d.0@, views(d.1@)))
    }

    /// The indices are those of the stored paths: each of the three holds the
    /// buckets of every stored path under its key, and the decoded keys hold
    /// every stored path with its labels.
    pub open spec fn wf(&self) -> bool {
        &&& self.db().wf()
        &&& self.kb_index() == buckets_of(self.db().paths(), Part::Kb)
        &&& self.label_index() == buckets_of(self.db().paths(), Part::Label)
        &&& self.name_index() == buckets_of(self.db().paths(), Part::Name)
        &&& self.decoded() == decoded_of(self.db().paths())
    }

    /// `self` has the store and the indices of `other`.
    pub open spec fn same_indices(&self, other: Self) -> bool {
        &&& self.db() == other.db()
        &&& self.kb_index() == other.kb_index()
        &&& self.label_index() == other.label_index()
        &&& self.name_index() == other.name_index()
        &&& self.decoded() == other.decoded()
    }

    /// An empty store with empty indices and session.
    pub fn new_empty(host: String, port: u16, dbname: String, user: String, password: String, table_name: String) -> (r: Self)
        ensures
            r.wf(),
            r.db()@ == Map::<Seq<char>, EntryView>::empty(),
            r.session() == r.db().entries(),
    {
        let basic_db = BasicConstructDB::new(host, port, dbname, user, password, table_name);
        let mut r = SearchMemDB {
            basic_db,
            kbs: Buckets { entries: Vec::new() },
            labels: Buckets { entries: Vec::new() },
            names: Buckets { entries: Vec::new() },
            decoded_keys: Vec::new(),
            filter_results: FilterSet { nodes: Vec::new() },
        };
        r.refresh_indices();
        r
    }

    /// Rebuilds the indices from the stored paths and resets the session to
    /// every stored entry.
    pub fn refresh_indices(&mut self)
        requires
            old(self).db().wf(),
        ensures
            final(self).wf(),
            final(self).db() == old(self).db(),
            final(self).session() == final(self).db().entries(),
    {
        let paths = self.basic_db.get_all_paths();
        self.kbs = Buckets::build(&paths, Part::Kb);
        self.labels = Buckets::build(&paths, Part::Label);
        self.names = Buckets::build(&paths, Part::Name);
        let mut decoded: Vec<(String, Vec<String>)> = Vec::new();
        let mut i: usize = 0;
        while i < paths.len()
            invariant
                i <= paths@.len(),
                decoded@.len() == i,
                forall|q: int| 0 <= q < i ==> (#[trigger] decoded@[q]).0@ == paths@[q]@ && views(decoded@[q].1@) == split_dots(paths@[q]@),
            decreases paths@.len() - i,
        {
            decoded.push((paths[i].clone(), split_labels(paths[i].as_str())));
            i = i + 1;
        }
        self.decoded_keys = decoded;
        proof {
            assert(self.decoded() =~= decoded_of(self.basic_db.paths())) by {
                assert forall|q: int| 0 <= q < i implies #[trigger] self.decoded()[q] == decoded_of(self.basic_db.paths())[q] by {
                    assert(views(paths@)[q] == paths@[q]@);
                }
            }
        }
        self.clear_filters();
    }

    /// Resets the session to every stored entry.
    pub fn clear_filters(&mut self)
        ensures
            final(self).db() == old(self).db(),
            final(self).kb_index() == old(self).kb_index(),
            final(self).label_index() == old(self).label_index(),
            final(self).name_index() == old(self).name_index(),
            final(self).decoded() == old(self).decoded(),
            final(self).wf() == old(self).wf(),
            final(self).session() == final(self).db().entries(),
    {
        self.filter_results = FilterSet { nodes: self.basic_db.all_nodes() };
    }

    /// Keeps in the session the entries that the step keeps.
    fn narrow(&mut self, how: Narrow, a: &str, b: &str)
        ensures
            final(self).db() == old(self).db(),
            final(self).kb_index() == old(self).kb_index(),
            final(self).label_index() == old(self).label_index(),
            final(self).name_index() == old(self).name_index(),
            final(self).decoded() == old(self).decoded(),
            final(self).wf() == old(self).wf(),
            final(self).session() == old(self).session().filter(|e: EntryView| narrow_keeps(how, a@, b@, e)),
    {
        let ghost pred = |e: EntryView| narrow_keeps(how, a@, b@, e);
        let ghost s = self.session();
        let mut kept: Vec<TreeNode> = Vec::new();
        let mut i: usize = 0;
        while i < self.filter_results.nodes.len()
            invariant
                s == self.session(),
                s == self.filter_results@,
                i <= self.filter_results.nodes@.len(),
                pred == (|e: EntryView| narrow_keeps(how, a@, b@, e)),
                kept@.map_values(|e: TreeNode| e@) == s.take(i as int).filter(pred),
            decreases self.filter_results.nodes@.len() - i,
        {
            let ghost before = kept@.map_values(|e: TreeNode| e@);
            proof {
                reveal(Seq::filter);
                assert(s.take(i + 1).drop_last() =~= s.take(i as int));
                assert(s.take(i + 1).last() == self.filter_results.nodes@[i as int]@);
            }
            if keeps(how, a, b, &self.filter_results.nodes[i]) {
                kept.push(self.filter_results.nodes[i].copy());
                proof {
                    assert(kept@.map_values(|e: TreeNode| e@) =~= before.push(self.filter_results.nodes@[i as int]@));
                }
            }
            i = i + 1;
        }
        proof {
            assert(s.take(i as int) =~= s);
        }
        self.filter_results = FilterSet { nodes: kept };
    }

    /// Keeps the session entries filed under knowledge base `knowledge_base`.
    pub fn search_kb(&mut self, knowledge_base: &str) -> (r: &FilterSet)
        ensures
            final(self).same_indices(*old(self)),
            final(self).wf() == old(self).wf(),
            final(self).session() == old(self).session().filter(|e: EntryView| narrow_keeps(Narrow::Kb, knowledge_base@, Seq::empty(), e)),
            r@ == final(self).session(),
    {
        self.narrow(Narrow::Kb, knowledge_base, "");
        proof {
            reveal_strlit("");
            assert(""@ =~= Seq::<char>::empty());
        }
        &self.filter_results
    }

    /// Keeps the session entries whose second-to-last label is `label`.
    pub fn search_label(&mut self, label: &str) -> (r: &FilterSet)
        ensures
            final(self).same_indices(*old(self)),
            final(self).wf() == old(self).wf(),
            final(self).session() == old(self).session().filter(|e: EntryView| narrow_keeps(Narrow::Label, label@, Seq::empty(), e)),
            r@ == final(self).session(),
    {
        self.narrow(Narrow::Label, label, "");
        proof {
            reveal_strlit("");
            assert(""@ =~= Seq::<char>::empty());
        }
        &self.filter_results
    }

    /// Keeps the session entries whose last label is `name`.
    pub fn search_name(&mut self, name: &str) -> (r: &FilterSet)
        ensures
            final(self).same_indices(*old(self)),
            final(self).wf() == old(self).wf(),
            final(self).session() == old(self).session().filter(|e: EntryView| narrow_keeps(Narrow::Name, name@, Seq::empty(), e)),
            r@ == final(self).session(),
    {
        self.narrow(Narrow::Name, name, "");
        proof {
            reveal_strlit("");
            assert(""@ =~= Seq::<char>::empty());
        }
        &self.filter_results
    }

    /// Keeps the session entries whose value is an object with member `data_key`.
    pub fn search_property_key(&mut self, data_key: &str) -> (r: &FilterSet)
        ensures
            final(self).same_indices(*old(self)),
            final(self).wf() == old(self).wf(),
            final(self).session() == old(self).session().filter(|e: EntryView| narrow_keeps(Narrow::PropertyKey, data_key@, Seq::empty(), e)),
            r@ == final(self).session(),
    {
        self.narrow(Narrow::PropertyKey, data_key, "");
        proof {
            reveal_strlit("");
            assert(""@ =~= Seq::<char>::empty());
        }
        &self.filter_results
    }

    /// Keeps the session entries whose value is an object whose member
    /// `data_key` equals the JSON value `data_value`.
    pub fn search_property_value(&mut self, data_key: &str, data_value: &str) -> (r: &FilterSet)
        ensures
            final(self).same_indices(*old(self)),
            final(self).wf() == old(self).wf(),
            final(self).session() == old(self).session().filter(|e: EntryView| narrow_keeps(Narrow::PropertyValue, data_key@, data_value@, e)),
            r@ == final(self).session(),
    {
        self.narrow(Narrow::PropertyValue, data_key, data_value);
        &self.filter_results
    }

    /// Keeps the session entries that the operator query on `starting_path` returns.
    pub fn search_path(&mut self, operator: &str, starting_path: &str) -> (r: &FilterSet)
        ensures
            final(self).same_indices(*old(self)),
            final(self).wf() == old(self).wf(),
            final(self).session() == old(self).session().filter(|e: EntryView| narrow_keeps(Narrow::Path, operator@, starting_path@, e)),
            r@ == final(self).session(),
    {
        self.narrow(Narrow::Path, operator, starting_path);
        &self.filter_results
    }

    /// Narrows the session to `starting_path` and its descendants; empties it
    /// when `starting_path` is not in it.
    pub fn search_starting_path(&mut self, starting_path: &str) -> (r: Result<&FilterSet, SearchMemError>)
        ensures
            final(self).same_indices(*old(self)),
            final(self).wf() == old(self).wf(),
            (exists|j: int| 0 <= j < old(self).session().len() && (#[trigger] old(self).session()[j]).path == starting_path@)
                ==> final(self).session() == old(self).session().filter(|e: EntryView| in_subtree(starting_path@, e.path)),
            !(exists|j: int| 0 <= j < old(self).session().len() && (#[trigger] old(self).session()[j]).path == starting_path@)
                ==> final(self).session().len() == 0,
            r is Ok && r->Ok_0@ == final(self).session(),
    {
        if !self.filter_results.contains_key(starting_path) {
            self.filter_results = FilterSet { nodes: Vec::new() };
            proof {
                assert(self.session() =~= Seq::<EntryView>::empty());
            }
            return Ok(&self.filter_results);
        }
        proof {
            reveal_strlit("<@");
        }
        let ghost s = self.session();
        let mut kept: Vec<TreeNode> = Vec::new();
        let ghost pred = |e: EntryView| in_subtree(starting_path@, e.path);
        let mut i: usize = 0;
        while i < self.filter_results.nodes.len()
            invariant
                s == self.session(),
                s == self.filter_results@,
                i <= self.filter_results.nodes@.len(),
                pred == (|e: EntryView| in_subtree(starting_path@, e.path)),
                kept@.map_values(|e: TreeNode| e@) == s.take(i as int).filter(pred),
            decreases self.filter_results.nodes@.len() - i,
        {
            let ghost before = kept@.map_values(|e: TreeNode| e@);
            proof {
                reveal(Seq::filter);
                assert(s.take(i + 1).drop_last() =~= s.take(i as int));
                assert(s.take(i + 1).last() == self.filter_results.nodes@[i as int]@);
            }
            if select_one(Selector::SubtreeOf, starting_path, self.filter_results.nodes[i].path.as_str()) {
                kept.push(self.filter_results.nodes[i].copy());
                proof {
                    assert(kept@.map_values(|e: TreeNode| e@) =~= before.push(self.filter_results.nodes@[i as int]@));
                }
            }
            i = i + 1;
        }
        proof {
            assert(s.take(i as int) =~= s);
        }
        self.filter_results = FilterSet { nodes: kept };
        Ok(&self.filter_results)
    }

    /// Each stored path with the text of its value's `description` member when
    /// that is a JSON string, else empty text; in path order.
    pub fn find_descriptions(&self) -> (r: Vec<(String, String)>)
        ensures
            r@.len() == self.db().entries().len(),
            forall|i: int| 0 <= i < r@.len() ==> {
                let e = self.db().entries()[i];
                &&& (#[trigger] r@[i]).0@ == e.path
                &&& r@[i].1@ == description_of(e.data)
            },
    {
        let nodes = self.basic_db.all_nodes();
        let mut r: Vec<(String, String)> = Vec::new();
        let mut i: usize = 0;
        proof {
            reveal_strlit("description");
        }
        while i < nodes.len()
            invariant
                nodes@.map_values(|e: TreeNode| e@) == self.db().entries(),
                i <= nodes@.len(),
                r@.len() == i,
                "description"@ == seq!['d', 'e', 's', 'c', 'r', 'i', 'p', 't', 'i', 'o', 'n'],
                forall|q: int| 0 <= q < i ==> {
                    let e = self.db().entries()[q];
                    &&& (#[trigger] r@[q]).0@ == e.path
                    &&& r@[q].1@ == description_of(e.data)
                },
            decreases nodes@.len() - i,
        {
            let n = &nodes[i];
            proof {
                assert(self.db().entries()[i as int] == n@);
            }
            let text = match member(n.data.as_str(), "description") {
                Some(m) => match string_content(m.as_str()) {
                    Some(t) => t,
                    None => String::new(),
                },
                None => String::new(),
            };
            r.push((n.path.clone(), text));
            i = i + 1;
        }
        r
    }

    /// The session.
    pub fn get_filter_results(&self) -> (r: FilterSet)
        ensures
            r@ == self.session(),
    {
        self.filter_results.copy()
    }

    /// Paths of the session entries.
    pub fn get_filter_result_keys(&self) -> (r: Vec<String>)
        ensures
            views(r@) == self.session().map_values(|e: EntryView| e.path),
    {
        self.filter_results.keys()
    }

    /// The index by knowledge base.
    pub fn get_kbs(&self) -> (r: &Buckets)
        ensures
            r@ == self.kb_index(),
    {
        &self.kbs
    }

    /// The index by second-to-last label.
    pub fn get_labels(&self) -> (r: &Buckets)
        ensures
            r@ == self.label_index(),
    {
        &self.labels
    }

    /// The index by last label.
    pub fn get_names(&self) -> (r: &Buckets)
        ensures
            r@ == self.name_index(),
    {
        &self.names
    }

    /// Every stored path with its labels.
    pub fn get_decoded_keys(&self) -> (r: &Vec<(String, Vec<String>)>)
        ensures
            r@.map_values(|d: (String, Vec<String>)| (d.0@, views(d.1@))) == self.decoded(),
    {
        &self.decoded_keys
    }

    /// The path store underneath.
    pub fn basic_db(&self) -> (r: &BasicConstructDB)
        ensures
            *r == self.db(),
    {
        &self.basic_db
    }

    /// Stores an entry, then rebuilds the indices and resets the session.
    pub fn add_data(&mut self, path: String, data: String, created_at: Option<String>, updated_at: Option<String>) -> (r: Result<(), SearchMemError>)
        requires
            old(self).wf(),
        ensures
            final(self).wf(),
            r is Ok <==> crate::path::valid_path(path@),
            r is Err ==> r->Err_0 is Basic && r->Err_0->Basic_0 is InvalidPath && r->Err_0->Basic_0->InvalidPath_0@ == path@
                && final(self).same_indices(*old(self)) && final(self).session() == old(self).session(),
            r is Ok ==> final(self).db()@ == old(self).db()@.insert(path@, EntryView {
                path: path@,
                data: data@,
                created_at: crate::store::opt_view(created_at),
                updated_at: crate::store::opt_view(updated_at),
            }) && final(self).session() == final(self).db().entries(),
    {
        match self.basic_db.store(path.as_str(), data, created_at, updated_at) {
            Err(e) => {
                return Err(SearchMemError::Basic(e));
            },
            Ok(()) => {},
        }
        self.refresh_indices();
        Ok(())
    }

    /// Stores the rows read from the backing store, skipping rows with a
    /// malformed path, then rebuilds the indices and resets the session;
    /// returns how many rows were stored.
    pub fn import_rows(&mut self, rows_in: &[crate::store::QueryResult]) -> (r: usize)
        requires
            old(self).wf(),
        ensures
            final(self).wf(),
            final(self).db()@ == crate::store::imported(old(self).db()@, crate::store::rows(rows_in@)),
            r == crate::store::rows(rows_in@).filter(|e: EntryView| crate::store::row_ok(e)).len(),
            final(self).session() == final(self).db().entries(),
    {
        let r = self.basic_db.import_rows(rows_in);
        self.refresh_indices();
        r
    }

    /// Removes an entry; when there was one, rebuilds the indices and resets
    /// the session.
    pub fn remove_data(&mut self, path: &str) -> (r: bool)
        requires
            old(self).wf(),
        ensures
            final(self).wf(),
            r == old(self).db()@.contains_key(path@),
            final(self).db()@ == old(self).db()@.remove(path@),
            r ==> final(self).session() == final(self).db().entries(),
            !r ==> final(self).same_indices(*old(self)) && final(self).session() == old(self).session(),
    {
        let r = self.basic_db.delete(path);
        if r {
            self.refresh_indices();
        }
        r
    }

    /// Counts of entries, session entries and index keys.
    pub fn get_stats(&self) -> (r: SearchStats)
        requires
            self.wf(),
        ensures
            r.total_items == self.db().entries().len(),
            r.filter_results == self.session().len(),
            r.knowledge_bases == self.kb_index().len(),
            r.unique_labels == self.label_index().len(),
            r.unique_names == self.name_index().len(),
    {
        SearchStats {
            total_items: self.basic_db.size(),
            filter_results: self.filter_results.len(),
            knowledge_bases: self.kbs.len(),
            unique_labels: self.labels.len(),
            unique_names: self.names.len(),
        }
    }

    /// Starts a chain of search steps on this index's session.
    pub fn chain_search(self) -> (r: SearchChain)
        ensures
            r.db() == self,
    {
        SearchChain { search_db: self }
    }
}

impl Default for SearchMemDB {
    /// An empty index with the usual local connection settings.
    fn default() -> (r: Self)
        ensures
            r.wf(),
            r.db()@ == Map::<Seq<char>, EntryView>::empty(),
            r.session() == r.db().entries(),
    {
        SearchMemDB::new_empty(
            "localhost".to_owned(),
            5432,
            "postgres".to_owned(),
            "postgres".to_owned(),
            String::new(),
            "ltree_data".to_owned(),
        )
    }
}

/// The text of the `description` member of a JSON object when it is a JSON
/// string; else empty text.
pub open spec fn description_of(data: Seq<char>) -> Seq<char> {
    match json_member(data, seq!['d', 'e', 's', 'c', 'r', 'i', 'p', 't', 'i', 'o', 'n']) {
        Some(m) => match json_string_content(m) {
            Some(t) => t,
            None => Seq::empty(),
        },
        None => Seq::empty(),
    }
}

/// A pipeline of search steps, each narrowing the session of the index it holds.
pub struct SearchChain {
    search_db: SearchMemDB,
}

impl SearchChain {
    /// The index the chain works on.
    pub closed spec fn db(&self) -> SearchMemDB {
        self.search_db
    }

    /// Narrows by knowledge base.
    pub fn kb(self, knowledge_base: &str) -> (r: Self)
        ensures
            r.db().session() == self.db().session().filter(|e: EntryView| narrow_keeps(Narrow::Kb, knowledge_base@, Seq::empty(), e)),
            r.db().same_indices(self.db()),
            r.db().wf() == self.db().wf(),
    {
        let mut s = self;
        s.search_db.search_kb(knowledge_base);
        s
    }

    /// Narrows by second-to-last label.
    pub fn label(self, label: &str) -> (r: Self)
        ensures
            r.db().session() == self.db().session().filter(|e: EntryView| narrow_keeps(Narrow::Label, label@, Seq::empty(), e)),
            r.db().same_indices(self.db()),
            r.db().wf() == self.db().wf(),
    {
        let mut s = self;
        s.search_db.search_label(label);
        s
    }

    /// Narrows by last label.
    pub fn name(self, name: &str) -> (r: Self)
        ensures
            r.db().session() == self.db().session().filter(|e: EntryView| narrow_keeps(Narrow::Name, name@, Seq::empty(), e)),
            r.db().same_indices(self.db()),
            r.db().wf() == self.db().wf(),
    {
        let mut s = self;
        s.search_db.search_name(name);
        s
    }

    /// Narrows by property key.
    pub fn property_key(self, data_key: &str) -> (r: Self)
        ensures
            r.db().session() == self.db().session().filter(|e: EntryView| narrow_keeps(Narrow::PropertyKey, data_key@, Seq::empty(), e)),
            r.db().same_indices(self.db()),
            r.db().wf() == self.db().wf(),
    {
        let mut s = self;
        s.search_db.search_property_key(data_key);
        s
    }

    /// Narrows by property value.
    pub fn property_value(self, data_key: &str, data_value: &str) -> (r: Self)
        ensures
            r.db().session() == self.db().session().filter(|e: EntryView| narrow_keeps(Narrow::PropertyValue, data_key@, data_value@, e)),
            r.db().same_indices(self.db()),
            r.db().wf() == self.db().wf(),
    {
        let mut s = self;
        s.search_db.search_property_value(data_key, data_value);
        s
    }

    /// Narrows by an operator query.
    pub fn path(self, operator: &str, starting_path: &str) -> (r: Self)
        ensures
            r.db().session() == self.db().session().filter(|e: EntryView| narrow_keeps(Narrow::Path, operator@, starting_path@, e)),
            r.db().same_indices(self.db()),
            r.db().wf() == self.db().wf(),
    {
        let mut s = self;
        s.search_db.search_path(operator, starting_path);
        s
    }

    /// The session at the end of the chain.
    pub fn results(self) -> (r: FilterSet)
        ensures
            r@ == self.db().session(),
    {
        self.search_db.filter_results
    }

    /// Paths of the session at the end of the chain.
    pub fn result_keys(self) -> (r: Vec<String>)
        ensures
            views(r@) == self.db().session().map_values(|e: EntryView| e.path),
    {
        self.search_db.get_filter_result_keys()
    }
}

/// Index of the first `c` in `s` at or after `i`, or the length.
pub open spec fn first_index(s: Seq<char>, c: char, i: int) -> int
    decreases s.len() - i,
{
    if i < 0 || i >= s.len() {
        s.len() as int
    } else if s[i] == c {
        i
    } else {
        first_index(s, c, i + 1)
    }
}

proof fn lemma_first_index(s: Seq<char>, c: char, i: int)
    requires
        0 <= i <= s.len(),
    ensures
        i <= first_index(s, c, i) <= s.len(),
        first_index(s, c, i) < s.len() ==> s[first_index(s, c, i)] == c,
        forall|q: int| i <= q < first_index(s, c, i) ==> s[q] != c,
    decreases s.len() - i,
{
    if i < s.len() && s[i] != c {
        lemma_first_index(s, c, i + 1);
    }
}

/// A text with no dot is a single label.
proof fn lemma_split_no_dot(s: Seq<char>)
    requires
        forall|q: int| 0 <= q < s.len() ==> s[q] != '.',
    ensures
        split_dots(s) == seq![s],
    decreases s.len(),
{
    if s.len() > 0 {
        lemma_split_no_dot(s.drop_last());
        assert(s[s.len() - 1] != '.');
        assert(s.drop_last().push(s.last()) =~= s);
        assert(split_dots(s) =~= seq![s]);
    } else {
        assert(s =~= Seq::<char>::empty());
    }
}

/// The first label of a path runs up to its first dot.
proof fn lemma_first_label(p: Seq<char>, k: int)
    requires
        0 <= k < p.len(),
        p[k] == '.',
        forall|q: int| 0 <= q < k ==> p[q] != '.',
    ensures
        split_dots(p).len() >= 2,
        split_dots(p)[0] == p.take(k),
    decreases p.len(),
{
    crate::path::lemma_split_nonempty(p.drop_last());
    if p.len() == k + 1 {
        let t = p.drop_last();
        assert(t =~= p.take(k));
        lemma_split_no_dot(t);
    } else {
        let t = p.drop_last();
        assert forall|q: int| 0 <= q < k implies t[q] != '.' by {
            assert(t[q] == p[q]);
        }
        lemma_first_label(t, k);
        assert(t.take(k) =~= p.take(k));
    }
}

/// A path of at least three labels is filed under knowledge base `a` (a
/// single label) exactly when it begins with `a` followed by a dot.
pub proof fn law_kb_key_is_prefix(p: Seq<char>, a: Seq<char>)
    requires
        split_dots(p).len() >= 3,
        !a.contains('.'),
    ensures
        part_key(p, Part::Kb) == Some(a) <==> crate::path::is_prefix(a.push('.'), p),
{
    let k = first_index(p, '.', 0);
    lemma_first_index(p, '.', 0);
    if k >= p.len() {
        lemma_split_no_dot(p);
    }
    assert(k < p.len());
    lemma_first_label(p, k);
    if part_key(p, Part::Kb) == Some(a) {
        assert(a == p.take(k));
        assert(p.take(a.len() as int + 1) =~= a.push('.'));
    }
    if crate::path::is_prefix(a.push('.'), p) {
        assert forall|q: int| 0 <= q < a.len() implies p[q] != '.' by {
            assert(p.take(a.len() as int + 1)[q] == a.push('.')[q]);
            if p[q] == '.' {
                assert(a[q] == '.');
                assert(a.contains('.'));
            }
        }
        assert(p.take(a.len() as int + 1)[a.len() as int] == a.push('.')[a.len() as int]);
        lemma_first_label(p, a.len() as int);
        assert(p.take(a.len() as int) =~= a) by {
            assert forall|q: int| 0 <= q < a.len() implies p.take(a.len() as int)[q] == a[q] by {
                assert(p.take(a.len() as int + 1)[q] == a.push('.')[q]);
            }
        }
    }
}

/// The entries of `s` that a search step keeps, in order.
pub open spec fn narrowed(s: Seq<EntryView>, how: Narrow, a: Seq<char>, b: Seq<char>) -> Seq<EntryView> {
    s.filter(|e: EntryView| narrow_keeps(how, a, b, e))
}

/// A search step never adds entries to the session: each keeps a part of it,
/// so chaining steps never increases the result count.
pub proof fn law_narrowing_shrinks(s: Seq<EntryView>, how: Narrow, a: Seq<char>, b: Seq<char>)
    ensures
        narrowed(s, how, a, b).len() <= s.len(),
        forall|i: int| 0 <= i < narrowed(s, how, a, b).len() ==> s.contains(#[trigger] narrowed(s, how, a, b)[i]),
{
    let pred = |e: EntryView| narrow_keeps(how, a, b, e);
    assert(narrowed(s, how, a, b) == s.filter(pred));
    s.lemma_filter_len(pred);
    assert forall|i: int| 0 <= i < narrowed(s, how, a, b).len() implies s.contains(#[trigger] narrowed(s, how, a, b)[i]) by {
        let x = narrowed(s, how, a, b)[i];
        assert(s.filter(pred).contains(x));
        s.lemma_filter_contains_rev(pred, x);
    }
}

} // verus!
