use vstd::prelude::*;

verus! {

/// The views of a sequence of strings.
pub open spec fn views(v: Seq<String>) -> Seq<Seq<char>> {
    v.map_values(|s: String| s@)
}

/// The pieces of `s` between occurrences of `sep`, as `str::split` gives them
/// (an empty text, or one that begins or ends with `sep`, yields empty pieces).
pub open spec fn split_on(s: Seq<char>, sep: char) -> Seq<Seq<char>>
    decreases s.len(),
{
    if s.len() == 0 {
        seq![Seq::<char>::empty()]
    } else {
        let init = split_on(s.drop_last(), sep);
        if s.last() == sep {
            init.push(Seq::<char>::empty())
        } else {
            init.update(init.len() - 1, init[init.len() - 1].push(s.last()))
        }
    }
}

/// The labels of a path: the text split at every `.`.
pub open spec fn split_dots(s: Seq<char>) -> Seq<Seq<char>> {
    split_on(s, '.')
}

/// Number of labels of a path.
pub open spec fn depth_of(s: Seq<char>) -> nat {
    split_dots(s).len()
}

/// Labels joined with `.` between them.
pub open spec fn join_dots(ls: Seq<Seq<char>>) -> Seq<char>
    decreases ls.len(),
{
    if ls.len() == 0 {
        Seq::<char>::empty()
    } else if ls.len() == 1 {
        ls[0]
    } else {
        join_dots(ls.drop_last()) + seq!['.'] + ls.last()
    }
}

pub open spec fn is_label_start(c: char) -> bool {
    ('a' <= c && c <= 'z') || ('A' <= c && c <= 'Z') || c == '_'
}

pub open spec fn is_label_char(c: char) -> bool {
    is_label_start(c) || ('0' <= c && c <= '9')
}

/// A label: a letter or underscore, then letters, digits or underscores;
/// between 1 and 256 characters.
pub open spec fn valid_label(l: Seq<char>) -> bool {
    &&& 1 <= l.len() <= 256
    &&& is_label_start(l[0])
    &&& forall|i: int| 0 < i < l.len() ==> is_label_char(#[trigger] l[i])
}

/// A well-formed path: every label between the dots is a valid label.
pub open spec fn valid_path(s: Seq<char>) -> bool {
    forall|i: int| 0 <= i < split_dots(s).len() ==> valid_label(#[trigger] split_dots(s)[i])
}

pub open spec fn is_prefix(p: Seq<char>, s: Seq<char>) -> bool {
    p.len() <= s.len() && s.take(p.len() as int) == p
}

/// `a` is a strict ancestor of `b`: `b` begins with `a` followed by a dot.
pub open spec fn is_ancestor(a: Seq<char>, b: Seq<char>) -> bool {
    a != b && is_prefix(a.push('.'), b)
}

/// Two paths joined by a dot; an empty operand leaves the other unchanged.
pub open spec fn concat_spec(a: Seq<char>, b: Seq<char>) -> Seq<char> {
    if a.len() == 0 {
        b
    } else if b.len() == 0 {
        a
    } else {
        a + seq!['.'] + b
    }
}

pub proof fn lemma_split_on_nonempty(s: Seq<char>, sep: char)
    ensures
        split_on(s, sep).len() >= 1,
    decreases s.len(),
{
    if s.len() > 0 {
        lemma_split_on_nonempty(s.drop_last(), sep);
    }
}

pub proof fn lemma_split_nonempty(s: Seq<char>)
    ensures
        split_dots(s).len() >= 1,
{
    lemma_split_on_nonempty(s, '.');
}

/// Splitting `a.b` gives the labels of `a` followed by those of `b`.
pub proof fn lemma_split_concat(a: Seq<char>, b: Seq<char>)
    ensures
        split_dots(a + seq!['.'] + b) == split_dots(a) + split_dots(b),
    decreases b.len(),
{
    lemma_split_nonempty(a);
    lemma_split_nonempty(b);
    let ab = a + seq!['.'] + b;
    if b.len() == 0 {
        assert(ab.drop_last() =~= a);
        assert(split_dots(a) + split_dots(b) =~= split_dots(a).push(Seq::<char>::empty()));
    } else {
        let b1 = b.drop_last();
        assert(ab.drop_last() =~= a + seq!['.'] + b1);
        lemma_split_concat(a, b1);
        lemma_split_nonempty(b1);
        if b.last() == '.' {
            assert(split_dots(ab) =~= split_dots(a) + split_dots(b));
        } else {
            assert(split_dots(ab) =~= split_dots(a) + split_dots(b));
        }
    }
}

/// Pieces of `s` between occurrences of `sep`.
pub fn split_text(s: &str, sep: char) -> (r: Vec<String>)
    ensures
        views(r@) == split_on(s@, sep),
{
    let n = s.unicode_len();
    let mut labels: Vec<String> = Vec::new();
    let mut start: usize = 0;
    let mut i: usize = 0;
    proof {
        assert(s@.take(0) =~= Seq::<char>::empty());
        assert(views(labels@).push(s@.subrange(0, 0)) =~= split_on(s@.take(0), sep));
    }
    while i < n
        invariant
            n == s@.len(),
            start <= i <= n,
            views(labels@).push(s@.subrange(start as int, i as int)) == split_on(s@.take(i as int), sep),
        decreases n - i,
    {
        let c = s.get_char(i);
        proof {
            assert(s@.take(i + 1).drop_last() =~= s@.take(i as int));
            assert(s@.take(i + 1).last() == c);
        }
        if c == sep {
            let piece = s.substring_char(start, i).to_owned();
            let ghost old_labels = labels@;
            labels.push(piece);
            proof {
                assert(views(labels@) =~= views(old_labels).push(s@.subrange(start as int, i as int)));
                assert(s@.subrange(i + 1, i + 1) =~= Seq::<char>::empty());
                assert(views(labels@).push(s@.subrange(i + 1, i + 1)) =~~= split_on(s@.take(i + 1), sep));
            }
            start = i + 1;
        } else {
            proof {
                assert(s@.subrange(start as int, i + 1) =~= s@.subrange(start as int, i as int).push(c));
                assert(views(labels@).push(s@.subrange(start as int, i + 1)) =~~= split_on(s@.take(i + 1), sep));
            }
        }
        i = i + 1;
    }
    let last = s.substring_char(start, n).to_owned();
    let ghost old_labels = labels@;
    labels.push(last);
    proof {
        assert(s@.take(n as int) =~= s@);
        assert(views(labels@) =~= views(old_labels).push(s@.subrange(start as int, n as int)));
    }
    labels
}

/// Labels of `s`, split at every dot.
pub fn split_labels(s: &str) -> (r: Vec<String>)
    ensures
        views(r@) == split_dots(s@),
{
    split_text(s, '.')
}

/// A copy of every string.
pub fn copy_strings(v: &Vec<String>) -> (r: Vec<String>)
    ensures
        views(r@) == views(v@),
{
    let mut r: Vec<String> = Vec::new();
    let mut k: usize = 0;
    while k < v.len()
        invariant
            k <= v@.len(),
            r@.len() == k,
            forall|q: int| 0 <= q < k ==> (#[trigger] r@[q])@ == v@[q]@,
        decreases v@.len() - k,
    {
        r.push(v[k].clone());
        k = k + 1;
    }
    proof {
        assert(views(r@) =~= views(v@));
    }
    r
}

/// Joins `ls[lo..hi]` with dots.
pub fn join_range(ls: &Vec<String>, lo: usize, hi: usize) -> (r: String)
    requires
        lo <= hi <= ls@.len(),
    ensures
        r@ == join_dots(views(ls@).subrange(lo as int, hi as int)),
{
    let mut r = String::new();
    let mut i: usize = lo;
    proof {
        assert(views(ls@).subrange(lo as int, lo as int) =~= Seq::<Seq<char>>::empty());
    }
    while i < hi
        invariant
            lo <= i <= hi <= ls@.len(),
            r@ == join_dots(views(ls@).subrange(lo as int, i as int)),
        decreases hi - i,
    {
        let ghost sub = views(ls@).subrange(lo as int, i + 1);
        proof {
            assert(sub.drop_last() =~= views(ls@).subrange(lo as int, i as int));
            assert(sub.last() == ls@[i as int]@);
        }
        if i > lo {
            r.append(".");
            proof {
                reveal_strlit(".");
            }
        } else {
            proof {
                assert(sub =~= seq![ls@[i as int]@]);
            }
        }
        r.append(ls[i].as_str());
        proof {
            if i > lo {
                assert(r@ =~= join_dots(sub.drop_last()) + seq!['.'] + sub.last());
            }
        }
        i = i + 1;
    }
    r
}

/// Whether `c` may start a label.
pub fn label_start_char(c: char) -> (r: bool)
    ensures
        r == is_label_start(c),
{
    ('a' <= c && c <= 'z') || ('A' <= c && c <= 'Z') || c == '_'
}

/// Whether `c` may continue a label.
pub fn label_char(c: char) -> (r: bool)
    ensures
        r == is_label_char(c),
{
    label_start_char(c) || ('0' <= c && c <= '9')
}

/// Whether `l` is a valid label.
pub fn check_label(l: &str) -> (r: bool)
    ensures
        r == valid_label(l@),
{
    let n = l.unicode_len();
    if n < 1 || n > 256 {
        return false;
    }
    if !label_start_char(l.get_char(0)) {
        return false;
    }
    let mut i: usize = 1;
    while i < n
        invariant
            n == l@.len(),
            1 <= i <= n,
            forall|k: int| 0 < k < i ==> is_label_char(#[trigger] l@[k]),
        decreases n - i,
    {
        if !label_char(l.get_char(i)) {
            return false;
        }
        i = i + 1;
    }
    true
}

/// Whether the text is a well-formed path.
pub fn check_path(path: &str) -> (r: bool)
    ensures
        r == valid_path(path@),
{
    let labels = split_labels(path);
    let mut i: usize = 0;
    while i < labels.len()
        invariant
            views(labels@) == split_dots(path@),
            0 <= i <= labels@.len(),
            forall|k: int| 0 <= k < i ==> valid_label(#[trigger] split_dots(path@)[k]),
        decreases labels@.len() - i,
    {
        let ok = check_label(labels[i].as_str());
        proof {
            assert(split_dots(path@)[i as int] == views(labels@)[i as int]);
        }
        if !ok {
            return false;
        }
        i = i + 1;
    }
    true
}

/// Whether `b` begins with `a` followed by a dot.
pub fn ancestor_text(a: &str, b: &str) -> (r: bool)
    ensures
        r == is_ancestor(a@, b@),
{
    let n = a.unicode_len();
    let m = b.unicode_len();
    if m <= n {
        return false;
    }
    let mut i: usize = 0;
    while i < n
        invariant
            n == a@.len(),
            m == b@.len(),
            n < m,
            0 <= i <= n,
            forall|k: int| 0 <= k < i ==> a@[k] == b@[k],
        decreases n - i,
    {
        if a.get_char(i) != b.get_char(i) {
            proof {
                assert(b@.take(n + 1)[i as int] != a@.push('.')[i as int]);
            }
            return false;
        }
        i = i + 1;
    }
    let dot = b.get_char(n) == '.';
    proof {
        if dot {
            assert(b@.take(n + 1) =~= a@.push('.'));
        } else {
            assert(b@.take(n + 1)[n as int] != a@.push('.')[n as int]);
        }
    }
    dot
}

/// Whether two texts are equal.
pub fn same_text(a: &str, b: &str) -> (r: bool)
    ensures
        r == (a@ == b@),
{
    let n = a.unicode_len();
    if n != b.unicode_len() {
        return false;
    }
    let mut i: usize = 0;
    while i < n
        invariant
            n == a@.len(),
            n == b@.len(),
            0 <= i <= n,
            forall|k: int| 0 <= k < i ==> a@[k] == b@[k],
        decreases n - i,
    {
        if a.get_char(i) != b.get_char(i) {
            return false;
        }
        i = i + 1;
    }
    proof {
        assert(a@ =~= b@);
    }
    true
}

/// `a` and `b` joined by a dot; an empty operand gives the other.
pub fn concat_paths(a: &str, b: &str) -> (r: String)
    ensures
        r@ == concat_spec(a@, b@),
{
    if a.unicode_len() == 0 {
        return b.to_owned();
    }
    if b.unicode_len() == 0 {
        return a.to_owned();
    }
    let mut r = a.to_owned();
    r.append(".");
    r.append(b);
    proof {
        reveal_strlit(".");
    }
    r
}

/// `a` is `b` or a strict ancestor of it.
pub open spec fn is_ancestor_or_equal(a: Seq<char>, b: Seq<char>) -> bool {
    a == b || is_ancestor(a, b)
}

/// `d` is a strict descendant of `a`.
pub open spec fn is_descendant(d: Seq<char>, a: Seq<char>) -> bool {
    is_ancestor(a, d)
}

/// `d` is `a` or a strict descendant of it.
pub open spec fn is_descendant_or_equal(d: Seq<char>, a: Seq<char>) -> bool {
    d == a || is_descendant(d, a)
}

/// Concatenating with an empty path changes nothing, and the depth of two
/// non-empty paths joined is the sum of their depths.
pub proof fn law_concatenate(a: Seq<char>, b: Seq<char>)
    ensures
        concat_spec(a, Seq::<char>::empty()) == a,
        concat_spec(Seq::<char>::empty(), b) == b,
        a.len() > 0 && b.len() > 0 ==> depth_of(concat_spec(a, b)) == depth_of(a) + depth_of(b),
{
    lemma_split_concat(a, b);
}

/// Every path is an ancestor-or-equal of itself but never its own strict
/// ancestor, and `a` is an ancestor of `b` exactly when `b` is a descendant of `a`.
pub proof fn law_ancestor_relations(p: Seq<char>, a: Seq<char>, b: Seq<char>)
    ensures
        is_ancestor_or_equal(p, p),
        !is_ancestor(p, p),
        is_ancestor(a, b) == is_descendant(b, a),
{
}

/// First label index of a `subpath` call: a negative start counts from the end.
pub open spec fn subpath_start(d: int, start: int) -> int {
    if start < 0 {
        d + start
    } else {
        start
    }
}

/// End label index of a `subpath` call: to the end, or `length` labels, clamped.
pub open spec fn subpath_end(d: int, s: int, length: Option<i32>) -> int {
    match length {
        None => d,
        Some(l) => if s + l < d {
            s + l
        } else {
            d
        },
    }
}

/// Labels `start'..end` of `path`, joined.
pub fn subpath_of(path: &str, start: i32, length: Option<i32>) -> (r: String)
    requires
        depth_of(path@) <= i32::MAX,
        0 <= subpath_start(depth_of(path@) as int, start as int) <= depth_of(path@),
        length is Some ==> length->0 >= 0,
    ensures
        ({
            let d = depth_of(path@) as int;
            let s = subpath_start(d, start as int);
            r@ == join_dots(split_dots(path@).subrange(s, subpath_end(d, s, length)))
        }),
{
    let labels = split_labels(path);
    let d = labels.len();
    let s: usize = if start < 0 {
        (d as i32 + start) as usize
    } else {
        start as usize
    };
    let e: usize = match length {
        None => d,
        Some(len) => if (len as usize) < d - s {
            s + len as usize
        } else {
            d
        },
    };
    join_range(&labels, s, e)
}

/// Clamped label range `lo..hi` used by `subltree`.
pub open spec fn subltree_range(d: int, start: int, end: int) -> (int, int) {
    let lo = if start < d {
        start
    } else {
        d
    };
    let e = if end < d {
        end
    } else {
        d
    };
    (lo, if e < lo {
        lo
    } else {
        e
    })
}

/// Labels `start..end` of `path` joined, clamped to the path; empty when
/// `start` is at or past its depth.
pub fn subltree_of(path: &str, start: usize, end: usize) -> (r: String)
    ensures
        ({
            let (lo, hi) = subltree_range(depth_of(path@) as int, start as int, end as int);
            r@ == join_dots(split_dots(path@).subrange(lo, hi))
        }),
{
    let labels = split_labels(path);
    let d = labels.len();
    if start >= d {
        proof {
            assert(split_dots(path@).subrange(d as int, d as int) =~= Seq::<Seq<char>>::empty());
        }
        return String::new();
    }
    let e = if end < d {
        end
    } else {
        d
    };
    let hi = if e < start {
        start
    } else {
        e
    };
    join_range(&labels, start, hi)
}

/// The labels `sub` stand contiguously in `ls` from index `i` on.
pub open spec fn occurs_at(ls: Seq<Seq<char>>, sub: Seq<Seq<char>>, i: int) -> bool {
    0 <= i && i + sub.len() <= ls.len() && ls.subrange(i, i + sub.len()) == sub
}

/// Whether `sub` occurs in `ls` at `i`, label by label.
fn occurs_at_exec(ls: &Vec<String>, sub: &Vec<String>, i: usize) -> (r: bool)
    requires
        i + sub@.len() <= ls@.len(),
    ensures
        r == occurs_at(views(ls@), views(sub@), i as int),
{
    let lsn = ls.len();
    let mut j: usize = 0;
    while j < sub.len()
        invariant
            lsn == ls@.len(),
            i + sub@.len() <= ls@.len(),
            0 <= j <= sub@.len(),
            forall|k: int| 0 <= k < j ==> ls@[i + k]@ == #[trigger] sub@[k]@,
        decreases sub@.len() - j,
    {
        if !same_text(ls[i + j].as_str(), sub[j].as_str()) {
            proof {
                assert(views(ls@).subrange(i as int, i + sub@.len())[j as int] != views(sub@)[j as int]);
            }
            return false;
        }
        j = j + 1;
    }
    proof {
        assert(views(ls@).subrange(i as int, i + sub@.len()) =~= views(sub@));
    }
    true
}

/// First label position at or after `offset` where the labels of `sub` stand
/// contiguously in the labels of `path`.
pub fn index_of(path: &str, sub: &str, offset: usize) -> (r: Option<usize>)
    ensures
        match r {
            Some(i) => offset <= i && occurs_at(split_dots(path@), split_dots(sub@), i as int)
                && forall|k: int| offset <= k < i ==> !occurs_at(split_dots(path@), split_dots(sub@), k),
            None => forall|k: int| offset <= k ==> !occurs_at(split_dots(path@), split_dots(sub@), k),
        },
{
    let labels = split_labels(path);
    let sub_labels = split_labels(sub);
    let n = labels.len();
    let m = sub_labels.len();
    if m > n {
        return None;
    }
    proof {
        lemma_split_nonempty(sub@);
    }
    let mut i: usize = offset;
    while i <= n - m
        invariant
            views(labels@) == split_dots(path@),
            views(sub_labels@) == split_dots(sub@),
            n == labels@.len(),
            m == sub_labels@.len(),
            1 <= m <= n,
            offset <= i,
            forall|k: int| offset <= k < i ==> !occurs_at(split_dots(path@), split_dots(sub@), k),
        decreases n - i + 1,
    {
        if occurs_at_exec(&labels, &sub_labels, i) {
            return Some(i);
        }
        i = i + 1;
    }
    None
}

/// Labels of every path agree at index `i`.
pub open spec fn agree_at(ls: Seq<Seq<Seq<char>>>, i: int) -> bool {
    forall|j: int| 0 <= j < ls.len() ==> i < (#[trigger] ls[j]).len() && ls[j][i] == ls[0][i]
}

/// End of the run of agreeing labels that starts at `i`.
pub open spec fn common_run(ls: Seq<Seq<Seq<char>>>, i: int) -> int
    decreases ls[0].len() - i,
{
    if ls.len() > 0 && 0 <= i < ls[0].len() && agree_at(ls, i) {
        common_run(ls, i + 1)
    } else {
        i
    }
}

/// Longest common leading run of labels of all paths; none for no paths or
/// no common label; a single path is its own result.
pub open spec fn lca_spec(ps: Seq<Seq<char>>) -> Option<Seq<char>> {
    if ps.len() == 0 {
        None
    } else if ps.len() == 1 {
        Some(ps[0])
    } else {
        let ls = ps.map_values(|p: Seq<char>| split_dots(p));
        let k = common_run(ls, 0);
        if k == 0 {
            None
        } else {
            Some(join_dots(ls[0].take(k)))
        }
    }
}

/// Least common ancestor of `paths`.
pub fn lca_of(paths: &[String]) -> (r: Option<String>)
    ensures
        match (r, lca_spec(paths@.map_values(|p: String| p@))) {
            (Some(a), Some(b)) => a@ == b,
            (None, None) => true,
            _ => false,
        },
{
    let ghost ps = paths@.map_values(|p: String| p@);
    if paths.len() == 0 {
        return None;
    }
    if paths.len() == 1 {
        return Some(paths[0].clone());
    }
    let ghost ls = ps.map_values(|p: Seq<char>| split_dots(p));
    let mut all: Vec<Vec<String>> = Vec::new();
    let mut j: usize = 0;
    while j < paths.len()
        invariant
            0 <= j <= paths@.len(),
            all@.len() == j,
            ps == paths@.map_values(|p: String| p@),
            ls == ps.map_values(|p: Seq<char>| split_dots(p)),
            forall|t: int| 0 <= t < j ==> views(#[trigger] all@[t]@) == ls[t],
        decreases paths@.len() - j,
    {
        all.push(split_labels(paths[j].as_str()));
        j = j + 1;
    }
    let first_len = all[0].len();
    let mut k: usize = 0;
    let mut agreeing = true;
    while agreeing && k < first_len
        invariant
            all@.len() == ls.len(),
            ls.len() >= 2,
            first_len == ls[0].len(),
            forall|t: int| 0 <= t < all@.len() ==> views(#[trigger] all@[t]@) == ls[t],
            0 <= k <= first_len,
            agreeing ==> common_run(ls, k as int) == common_run(ls, 0),
            !agreeing ==> common_run(ls, 0) == k,
        decreases first_len - k + (if agreeing { 1int } else { 0int }),
    {
        let mut t: usize = 1;
        let mut same = true;
        while t < all.len()
            invariant
                all@.len() == ls.len(),
                1 <= t <= all@.len(),
                0 <= k < first_len,
                first_len == ls[0].len(),
                forall|q: int| 0 <= q < all@.len() ==> views(#[trigger] all@[q]@) == ls[q],
                same == (forall|q: int| 0 <= q < t ==> k < (#[trigger] ls[q]).len() && ls[q][k as int] == ls[0][k as int]),
            decreases all@.len() - t,
        {
            proof {
                assert(views(all@[t as int]@) == ls[t as int]);
                assert(views(all@[0]@) == ls[0]);
            }
            if k >= all[t].len() || !same_text(all[t][k].as_str(), all[0][k].as_str()) {
                same = false;
            }
            proof {
                if k < all@[t as int]@.len() {
                    assert(views(all@[t as int]@)[k as int] == all@[t as int]@[k as int]@);
                    assert(views(all@[0]@)[k as int] == all@[0]@[k as int]@);
                }
            }
            t = t + 1;
        }
        proof {
            assert(same == agree_at(ls, k as int));
        }
        if same {
            k = k + 1;
        } else {
            agreeing = false;
        }
    }
    proof {
        if agreeing {
            assert(common_run(ls, k as int) == k);
        }
    }
    if k == 0 {
        None
    } else {
        let r = join_range(&all[0], 0, k);
        proof {
            assert(views(all@[0]@).subrange(0, k as int) =~= ls[0].take(k as int));
        }
        Some(r)
    }
}

/// Number of labels of `path`.
pub fn depth(path: &str) -> (r: usize)
    ensures
        r == depth_of(path@),
{
    split_labels(path).len()
}

} // verus!
