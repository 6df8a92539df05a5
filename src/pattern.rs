use vstd::prelude::*;
use crate::path::{split_dots, split_on, split_labels, split_text, same_text};

verus! {

/// What the regex engine decides: the expression `re` compiles and matches
/// `text` somewhere (anchors in `re` decide how much of `text` it must cover).
pub uninterp spec fn regex_accepts(re: Seq<char>, text: Seq<char>) -> bool;

/// Relies on `regex::Regex::new` and `Regex::is_match`: the expression is
/// compiled and tested against the text; one that does not compile matches nothing.
#[verifier::external_body]
fn regex_matches(re: &str, text: &str) -> (r: bool)
    ensures
        r == regex_accepts(re@, text@),
{
    regex::Regex::new(re).map(|compiled| compiled.is_match(text)).unwrap_or(false)
}

/// Characters with the Unicode `White_Space` property, which `str::trim` strips.
pub open spec fn is_white_space(c: char) -> bool {
    let n = c as u32;
    (9 <= n && n <= 13) || n == 32 || n == 0x85 || n == 0xa0 || n == 0x1680 || (0x2000 <= n && n <= 0x200a)
        || n == 0x2028 || n == 0x2029 || n == 0x202f || n == 0x205f || n == 0x3000
}

/// End of the run of white space that starts at `i`.
pub open spec fn lead_end(s: Seq<char>, i: int) -> int
    decreases s.len() - i,
{
    if 0 <= i < s.len() && is_white_space(s[i]) {
        lead_end(s, i + 1)
    } else {
        i
    }
}

/// Start of the run of white space that ends at `j`, not going below `lo`.
pub open spec fn trail_start(s: Seq<char>, lo: int, j: int) -> int
    decreases j - lo,
{
    if lo < j <= s.len() && is_white_space(s[j - 1]) {
        trail_start(s, lo, j - 1)
    } else {
        j
    }
}

/// `s` with leading and trailing white space removed, as `str::trim` does.
pub open spec fn trimmed(s: Seq<char>) -> Seq<char> {
    let a = lead_end(s, 0);
    s.subrange(a, trail_start(s, a, s.len() as int))
}

fn white_space(c: char) -> (r: bool)
    ensures
        r == is_white_space(c),
{
    let n = c as u32;
    (9 <= n && n <= 13) || n == 32 || n == 0x85 || n == 0xa0 || n == 0x1680 || (0x2000 <= n && n <= 0x200a)
        || n == 0x2028 || n == 0x2029 || n == 0x202f || n == 0x205f || n == 0x3000
}

/// `s` with leading and trailing white space removed.
fn trim_text(s: &str) -> (r: &str)
    ensures
        r@ == trimmed(s@),
{
    let n = s.unicode_len();
    let mut a: usize = 0;
    while a < n && white_space(s.get_char(a))
        invariant
            n == s@.len(),
            a <= n,
            lead_end(s@, a as int) == lead_end(s@, 0),
        decreases n - a,
    {
        a = a + 1;
    }
    let mut b: usize = n;
    while b > a && white_space(s.get_char(b - 1))
        invariant
            n == s@.len(),
            a <= b <= n,
            trail_start(s@, a as int, b as int) == trail_start(s@, a as int, n as int),
            lead_end(s@, 0) == a,
        decreases b,
    {
        b = b - 1;
    }
    s.substring_char(a, b)
}

/// Relies on `String`'s `FromIterator<&char>`: the characters in order.
#[verifier::external_body]
fn string_of(v: &Vec<char>) -> (r: String)
    ensures
        r@ == v@,
{
    String::from_iter(v.iter())
}

/// Characters that the regex syntax gives a meaning, as `regex::escape` escapes them.
pub open spec fn is_meta(c: char) -> bool {
    c == '\\' || c == '.' || c == '+' || c == '*' || c == '?' || c == '(' || c == ')' || c == '|'
        || c == '[' || c == ']' || c == '{' || c == '}' || c == '^' || c == '$' || c == '#'
        || c == '&' || c == '-' || c == '~'
}

/// A character as a literal in a regex.
pub open spec fn escape_char(c: char) -> Seq<char> {
    if is_meta(c) {
        seq!['\\', c]
    } else {
        seq![c]
    }
}

/// Regex text of the choices between indices `i` and `hi` of an alternation
/// group: `,` separates choices, `**` and `*` are wildcards as outside a group,
/// and every other character is a literal.
pub open spec fn alt_between(p: Seq<char>, i: int, hi: int) -> Seq<char>
    decreases hi - i,
{
    if i < 0 || i >= hi || hi > p.len() {
        Seq::<char>::empty()
    } else if p[i] == '*' && i + 1 < hi && p[i + 1] == '*' {
        any_run() + alt_between(p, i + 2, hi)
    } else if p[i] == '*' {
        one_level() + alt_between(p, i + 1, hi)
    } else if p[i] == ',' {
        seq!['|'] + alt_between(p, i + 1, hi)
    } else {
        escape_char(p[i]) + alt_between(p, i + 1, hi)
    }
}

pub open spec fn is_digit(c: char) -> bool {
    '0' <= c && c <= '9'
}

/// First index at or after `i` that does not hold a digit.
pub open spec fn digit_end(p: Seq<char>, i: int) -> int
    decreases p.len() - i,
{
    if 0 <= i < p.len() && is_digit(p[i]) {
        digit_end(p, i + 1)
    } else {
        i
    }
}

/// First index at or after `i` that holds `}`, or the length.
pub open spec fn brace_end(p: Seq<char>, i: int) -> int
    decreases p.len() - i,
{
    if 0 <= i < p.len() && p[i] != '}' {
        brace_end(p, i + 1)
    } else {
        i
    }
}

/// Regex text for one label: `[^.]+`.
pub open spec fn one_level() -> Seq<char> {
    seq!['[', '^', '.', ']', '+']
}

/// Regex text for any run of characters: `.*`.
pub open spec fn any_run() -> Seq<char> {
    seq!['.', '*']
}

/// Opening of a repeated label group: `([^.]+){`.
pub open spec fn group_open() -> Seq<char> {
    seq!['(', '[', '^', '.', ']', '+', ')', '{']
}

/// Closing of a repeated label group: `}[^.]*`.
pub open spec fn group_close() -> Seq<char> {
    seq!['}', '[', '^', '.', ']', '*']
}

/// A bounded wildcard `*{n,m}`, `*{n,}`, `*{,m}` or `*{n}` at `i`: its regex and
/// the index after it.
pub open spec fn bounded_at(p: Seq<char>, i: int) -> Option<(Seq<char>, int)> {
    if 0 <= i && i + 1 < p.len() && p[i] == '*' && p[i + 1] == '{' {
        let a0 = i + 2;
        let a1 = digit_end(p, a0);
        if a1 < p.len() && p[a1] == '}' && a1 > a0 {
            Some((group_open() + p.subrange(a0, a1) + group_close(), a1 + 1))
        } else if a1 < p.len() && p[a1] == ',' {
            let b0 = a1 + 1;
            let b1 = digit_end(p, b0);
            if b1 < p.len() && p[b1] == '}' && (a1 > a0 || b1 > b0) {
                let low = if a1 > a0 {
                    p.subrange(a0, a1)
                } else {
                    seq!['0']
                };
                Some((group_open() + low + seq![','] + p.subrange(b0, b1) + group_close(), b1 + 1))
            } else {
                None
            }
        } else {
            None
        }
    } else {
        None
    }
}

/// The token of the pattern at `i`: its regex text and the index after it.
/// In the flattened form (`flat`), `.*` stands for itself and there are no
/// bounded wildcards.
pub open spec fn token_at(p: Seq<char>, i: int, flat: bool) -> (Seq<char>, int) {
    if flat && p[i] == '.' && i + 1 < p.len() && p[i + 1] == '*' {
        (any_run(), i + 2)
    } else if !flat && bounded_at(p, i) is Some {
        bounded_at(p, i)->0
    } else if p[i] == '*' && i + 1 < p.len() && p[i + 1] == '*' && (flat || bounded_at(p, i + 1) is None) {
        (any_run(), i + 2)
    } else if p[i] == '*' {
        (one_level(), i + 1)
    } else if p[i] == '{' && brace_end(p, i + 1) < p.len() && brace_end(p, i + 1) > i + 1 {
        let c = brace_end(p, i + 1);
        (seq!['('] + alt_between(p, i + 1, c) + seq![')'], c + 1)
    } else {
        (escape_char(p[i]), i + 1)
    }
}

/// Regex text of the pattern from index `i` on.
pub open spec fn regex_from(p: Seq<char>, i: int, flat: bool) -> Seq<char>
    decreases p.len() - i,
{
    if 0 <= i < p.len() {
        let (out, next) = token_at(p, i, flat);
        if i < next <= p.len() {
            out + regex_from(p, next, flat)
        } else {
            Seq::<char>::empty()
        }
    } else {
        Seq::<char>::empty()
    }
}

/// The whole expression anchored at both ends.
pub open spec fn anchored(body: Seq<char>) -> Seq<char> {
    seq!['^'] + body + seq!['$']
}

/// The query uses the flattened form: it holds `@` and neither begins nor ends with it.
pub open spec fn is_flat_query(q: Seq<char>) -> bool {
    q.contains('@') && q[0] != '@' && q.last() != '@'
}

/// Regex for a wildcard path query.
pub open spec fn query_regex(q: Seq<char>) -> Seq<char> {
    if is_flat_query(q) {
        anchored(regex_from(q.map_values(|c: char| if c == '@' { '.' } else { c }), 0, true))
    } else {
        anchored(regex_from(q, 0, false))
    }
}

proof fn lemma_token_advances(p: Seq<char>, i: int, flat: bool)
    requires
        0 <= i < p.len(),
    ensures
        i < token_at(p, i, flat).1 <= p.len(),
{
    if !flat && bounded_at(p, i) is Some {
        lemma_digit_end_bounds(p, i + 2);
        let a1 = digit_end(p, i + 2);
        if a1 < p.len() && p[a1] == ',' {
            lemma_digit_end_bounds(p, a1 + 1);
        }
    }
    if p[i] == '{' {
        lemma_brace_end_bounds(p, i + 1);
    }
}

proof fn lemma_digit_end_bounds(p: Seq<char>, i: int)
    requires
        0 <= i,
    ensures
        i <= digit_end(p, i),
        digit_end(p, i) <= (if i <= p.len() { p.len() as int } else { i }),
        forall|k: int| i <= k < digit_end(p, i) ==> is_digit(#[trigger] p[k]),
        digit_end(p, i) < p.len() ==> !is_digit(p[digit_end(p, i)]),
    decreases p.len() - i,
{
    if 0 <= i < p.len() && is_digit(p[i]) {
        lemma_digit_end_bounds(p, i + 1);
    }
}

proof fn lemma_brace_end_bounds(p: Seq<char>, i: int)
    requires
        0 <= i,
    ensures
        i <= brace_end(p, i),
        brace_end(p, i) <= (if i <= p.len() { p.len() as int } else { i }),
        forall|k: int| i <= k < brace_end(p, i) ==> #[trigger] p[k] != '}',
        brace_end(p, i) < p.len() ==> p[brace_end(p, i)] == '}',
    decreases p.len() - i,
{
    if 0 <= i < p.len() && p[i] != '}' {
        lemma_brace_end_bounds(p, i + 1);
    }
}

fn push_seq(out: &mut Vec<char>, piece: &[char])
    ensures
        final(out)@ == old(out)@ + piece@,
{
    let mut i: usize = 0;
    while i < piece.len()
        invariant
            0 <= i <= piece@.len(),
            out@ == old(out)@ + piece@.take(i as int),
        decreases piece@.len() - i,
    {
        out.push(piece[i]);
        proof {
            assert(piece@.take(i + 1) =~= piece@.take(i as int).push(piece@[i as int]));
        }
        i = i + 1;
    }
    proof {
        assert(piece@.take(piece@.len() as int) =~= piece@);
    }
}

fn push_range(out: &mut Vec<char>, p: &Vec<char>, lo: usize, hi: usize)
    requires
        lo <= hi <= p@.len(),
    ensures
        final(out)@ == old(out)@ + p@.subrange(lo as int, hi as int),
{
    let mut i: usize = lo;
    while i < hi
        invariant
            lo <= i <= hi <= p@.len(),
            out@ == old(out)@ + p@.subrange(lo as int, i as int),
        decreases hi - i,
    {
        out.push(p[i]);
        proof {
            assert(p@.subrange(lo as int, i + 1) =~= p@.subrange(lo as int, i as int).push(p@[i as int]));
        }
        i = i + 1;
    }
}

fn meta_char(c: char) -> (r: bool)
    ensures
        r == is_meta(c),
{
    c == '\\' || c == '.' || c == '+' || c == '*' || c == '?' || c == '(' || c == ')' || c == '|'
        || c == '[' || c == ']' || c == '{' || c == '}' || c == '^' || c == '$' || c == '#'
        || c == '&' || c == '-' || c == '~'
}

fn push_escaped(out: &mut Vec<char>, c: char)
    ensures
        final(out)@ == old(out)@ + escape_char(c),
{
    if meta_char(c) {
        out.push('\\');
    }
    out.push(c);
    proof {
        assert(out@ =~= old(out)@ + escape_char(c));
    }
}

fn push_alt_body(out: &mut Vec<char>, p: &Vec<char>, lo: usize, hi: usize)
    requires
        lo <= hi <= p@.len(),
    ensures
        final(out)@ == old(out)@ + alt_between(p@, lo as int, hi as int),
{
    let mut i: usize = lo;
    while i < hi
        invariant
            lo <= i <= hi <= p@.len(),
            out@ + alt_between(p@, i as int, hi as int) == old(out)@ + alt_between(p@, lo as int, hi as int),
        decreases hi - i,
    {
        let c = p[i];
        let ghost before = out@;
        let next: usize;
        if c == '*' && i + 1 < hi && p[i + 1] == '*' {
            push_seq(out, &['.', '*']);
            next = i + 2;
        } else if c == '*' {
            push_seq(out, &['[', '^', '.', ']', '+']);
            next = i + 1;
        } else if c == ',' {
            out.push('|');
            next = i + 1;
        } else {
            push_escaped(out, c);
            next = i + 1;
        }
        proof {
            assert(before + alt_between(p@, i as int, hi as int) =~= out@ + alt_between(p@, next as int, hi as int));
        }
        i = next;
    }
    proof {
        assert(out@ + Seq::<char>::empty() =~= out@);
    }
}

fn digit_end_exec(p: &Vec<char>, i: usize) -> (r: usize)
    requires
        i <= p@.len(),
    ensures
        r == digit_end(p@, i as int),
{
    let mut k: usize = i;
    while k < p.len() && '0' <= p[k] && p[k] <= '9'
        invariant
            i <= k <= p@.len(),
            digit_end(p@, k as int) == digit_end(p@, i as int),
        decreases p@.len() - k,
    {
        k = k + 1;
    }
    k
}

fn brace_end_exec(p: &Vec<char>, i: usize) -> (r: usize)
    requires
        i <= p@.len(),
    ensures
        r == brace_end(p@, i as int),
{
    let mut k: usize = i;
    while k < p.len() && p[k] != '}'
        invariant
            i <= k <= p@.len(),
            brace_end(p@, k as int) == brace_end(p@, i as int),
        decreases p@.len() - k,
    {
        k = k + 1;
    }
    k
}

/// Index after a bounded wildcard at `i`, if one stands there.
fn bounded_end(p: &Vec<char>, i: usize) -> (r: Option<usize>)
    requires
        i <= p@.len(),
    ensures
        match bounded_at(p@, i as int) {
            Some(t) => r == Some(t.1 as usize),
            None => r is None,
        },
{
    let n = p.len();
    if i < n && 1 < n - i && p[i] == '*' && p[i + 1] == '{' {
        let a0 = i + 2;
        let a1 = digit_end_exec(p, a0);
        proof {
            lemma_digit_end_bounds(p@, a0 as int);
        }
        if a1 < p.len() && p[a1] == '}' && a1 > a0 {
            return Some(a1 + 1);
        } else if a1 < p.len() && p[a1] == ',' {
            let b0 = a1 + 1;
            let b1 = digit_end_exec(p, b0);
            proof {
                lemma_digit_end_bounds(p@, b0 as int);
            }
            if b1 < p.len() && p[b1] == '}' && (a1 > a0 || b1 > b0) {
                return Some(b1 + 1);
            }
        }
    }
    None
}

/// Appends the regex of the bounded wildcard at `i`, which must stand there.
fn push_bounded(out: &mut Vec<char>, p: &Vec<char>, i: usize)
    requires
        i <= p@.len(),
        bounded_at(p@, i as int) is Some,
    ensures
        final(out)@ == old(out)@ + (bounded_at(p@, i as int)->0).0,
{
    let n = p.len();
    proof {
        assert(i + 1 < n);
    }
    let a0 = i + 2;
    let a1 = digit_end_exec(p, a0);
    proof {
        lemma_digit_end_bounds(p@, a0 as int);
    }
    push_seq(out, &['(', '[', '^', '.', ']', '+', ')', '{']);
    if a1 < p.len() && p[a1] == '}' && a1 > a0 {
        push_range(out, p, a0, a1);
    } else {
        let b0 = a1 + 1;
        let b1 = digit_end_exec(p, b0);
        proof {
            lemma_digit_end_bounds(p@, b0 as int);
        }
        if a1 > a0 {
            push_range(out, p, a0, a1);
        } else {
            out.push('0');
        }
        out.push(',');
        push_range(out, p, b0, b1);
    }
    push_seq(out, &['}', '[', '^', '.', ']', '*']);
    proof {
        assert(out@ =~= old(out)@ + (bounded_at(p@, i as int)->0).0);
    }
}

/// Appends the regex of the token at `i` and returns the index after it.
fn push_token(out: &mut Vec<char>, p: &Vec<char>, i: usize, flat: bool) -> (next: usize)
    requires
        i < p@.len(),
    ensures
        final(out)@ == old(out)@ + token_at(p@, i as int, flat).0,
        next == token_at(p@, i as int, flat).1,
{
    let n = p.len();
    proof {
        lemma_token_advances(p@, i as int, flat);
    }
    if flat && p[i] == '.' && i + 1 < n && p[i + 1] == '*' {
        push_seq(out, &['.', '*']);
        return i + 2;
    }
    let b = bounded_end(p, i);
    if !flat && b.is_some() {
        push_bounded(out, p, i);
        return b.unwrap();
    }
    if p[i] == '*' && i + 1 < n && p[i + 1] == '*' && (flat || bounded_end(p, i + 1).is_none()) {
        push_seq(out, &['.', '*']);
        return i + 2;
    }
    if p[i] == '*' {
        push_seq(out, &['[', '^', '.', ']', '+']);
        return i + 1;
    }
    if p[i] == '{' {
        let c = brace_end_exec(p, i + 1);
        proof {
            lemma_brace_end_bounds(p@, i + 1);
        }
        if c < n && c > i + 1 {
            out.push('(');
            push_alt_body(out, p, i + 1, c);
            out.push(')');
            proof {
                assert(out@ =~= old(out)@ + token_at(p@, i as int, flat).0);
            }
            return c + 1;
        }
    }
    push_escaped(out, p[i]);
    i + 1
}

/// Regex text of the whole pattern, token by token.
fn compile_tokens(p: &Vec<char>, flat: bool) -> (r: Vec<char>)
    ensures
        r@ == regex_from(p@, 0, flat),
{
    let mut out: Vec<char> = Vec::new();
    let mut i: usize = 0;
    while i < p.len()
        invariant
            i <= p@.len(),
            out@ + regex_from(p@, i as int, flat) == regex_from(p@, 0, flat),
        decreases p@.len() - i,
    {
        proof {
            lemma_token_advances(p@, i as int, flat);
        }
        let ghost before = out@;
        let next = push_token(&mut out, p, i, flat);
        proof {
            let t = token_at(p@, i as int, flat);
            assert(regex_from(p@, i as int, flat) == t.0 + regex_from(p@, next as int, flat));
            assert(before + regex_from(p@, i as int, flat) =~= out@ + regex_from(p@, next as int, flat));
        }
        i = next;
    }
    proof {
        assert(out@ + Seq::<char>::empty() =~= out@);
    }
    out
}

/// Characters of `s`, with every `@` made a `.` when `flatten` is set.
fn chars_of(s: &str, flatten: bool) -> (r: Vec<char>)
    ensures
        r@ == (if flatten {
            s@.map_values(|c: char| if c == '@' { '.' } else { c })
        } else {
            s@
        }),
{
    let n = s.unicode_len();
    let mut v: Vec<char> = Vec::new();
    let mut i: usize = 0;
    while i < n
        invariant
            n == s@.len(),
            i <= n,
            v@ == (if flatten {
                s@.take(i as int).map_values(|c: char| if c == '@' { '.' } else { c })
            } else {
                s@.take(i as int)
            }),
        decreases n - i,
    {
        let c = s.get_char(i);
        if flatten && c == '@' {
            v.push('.');
        } else {
            v.push(c);
        }
        proof {
            assert(s@.take(i + 1) =~= s@.take(i as int).push(c));
            if flatten {
                assert(v@ =~= s@.take(i + 1).map_values(|c: char| if c == '@' { '.' } else { c }));
            } else {
                assert(v@ =~= s@.take(i + 1));
            }
        }
        i = i + 1;
    }
    proof {
        assert(s@.take(n as int) =~= s@);
    }
    v
}

/// Whether `s` holds `c`.
fn has_char(s: &str, c: char) -> (r: bool)
    ensures
        r == s@.contains(c),
{
    let n = s.unicode_len();
    let mut i: usize = 0;
    while i < n
        invariant
            n == s@.len(),
            i <= n,
            forall|k: int| 0 <= k < i ==> s@[k] != c,
        decreases n - i,
    {
        if s.get_char(i) == c {
            return true;
        }
        i = i + 1;
    }
    false
}

/// Compiles a wildcard path query to an anchored regular expression.
pub fn query_to_regex(query: &str) -> (r: String)
    ensures
        r@ == query_regex(query@),
{
    let n = query.unicode_len();
    let flat = n > 0 && has_char(query, '@') && query.get_char(0) != '@' && query.get_char(n - 1) != '@';
    let body = compile_tokens(&chars_of(query, flat), flat);
    let mut whole: Vec<char> = Vec::new();
    whole.push('^');
    push_range(&mut whole, &body, 0, body.len());
    whole.push('$');
    proof {
        assert(body@.subrange(0, body@.len() as int) =~= body@);
        assert(whole@ =~= anchored(body@));
    }
    string_of(&whole)
}

/// Whether `path` matches the wildcard query.
pub fn wildcard_match(path: &str, query: &str) -> (r: bool)
    ensures
        r == regex_accepts(query_regex(query@), path@),
{
    let re = query_to_regex(query);
    regex_matches(re.as_str(), path)
}

/// Result of a word predicate on the labels of a path: a bare word must be one
/// of them; with `&` every trimmed term must be, else with `|` at least one;
/// a predicate with `!` and neither operator matches nothing.
pub open spec fn word_query_holds(path: Seq<char>, pred: Seq<char>) -> bool {
    let words = split_dots(path);
    let q = trimmed(pred);
    if !q.contains('&') && !q.contains('|') && !q.contains('!') {
        words.contains(trimmed(q))
    } else if q.contains('&') {
        forall|i: int| 0 <= i < split_on(q, '&').len() ==> words.contains(trimmed(#[trigger] split_on(q, '&')[i]))
    } else if q.contains('|') {
        exists|i: int| 0 <= i < split_on(q, '|').len() && words.contains(trimmed(#[trigger] split_on(q, '|')[i]))
    } else {
        false
    }
}

/// Whether `w` is one of `words`.
fn word_in(words: &Vec<String>, w: &str) -> (r: bool)
    ensures
        r == crate::path::views(words@).contains(w@),
{
    let mut i: usize = 0;
    while i < words.len()
        invariant
            i <= words@.len(),
            forall|k: int| 0 <= k < i ==> words@[k]@ != w@,
        decreases words@.len() - i,
    {
        if same_text(words[i].as_str(), w) {
            proof {
                assert(crate::path::views(words@)[i as int] == w@);
            }
            return true;
        }
        i = i + 1;
    }
    proof {
        if crate::path::views(words@).contains(w@) {
            let k = choose|k: int| 0 <= k < words@.len() && crate::path::views(words@)[k] == w@;
            assert(words@[k]@ == w@);
        }
    }
    false
}

/// Evaluates a word predicate against the labels of `path`.
pub fn word_match(path: &str, pred: &str) -> (r: bool)
    ensures
        r == word_query_holds(path@, pred@),
{
    let words = split_labels(path);
    let q = trim_text(pred);
    let amp = has_char(q, '&');
    let bar = has_char(q, '|');
    if !amp && !bar && !has_char(q, '!') {
        return word_in(&words, trim_text(q));
    }
    if amp {
        let terms = split_text(q, '&');
        let mut i: usize = 0;
        while i < terms.len()
            invariant
                i <= terms@.len(),
                crate::path::views(terms@) == split_on(q@, '&'),
                q@ == trimmed(pred@),
                amp == q@.contains('&'),
                bar == q@.contains('|'),
                amp,
                crate::path::views(words@) == split_dots(path@),
                forall|k: int| 0 <= k < i ==> split_dots(path@).contains(trimmed(#[trigger] split_on(q@, '&')[k])),
            decreases terms@.len() - i,
        {
            let t = trim_text(terms[i].as_str());
            proof {
                assert(crate::path::views(terms@)[i as int] == terms@[i as int]@);
            }
            if !word_in(&words, t) {
                proof {
                    assert(crate::path::views(terms@).len() == terms@.len());
                    assert(!split_dots(path@).contains(trimmed(split_on(q@, '&')[i as int])));
                }
                return false;
            }
            i = i + 1;
        }
        return true;
    }
    if bar {
        let terms = split_text(q, '|');
        let mut i: usize = 0;
        while i < terms.len()
            invariant
                i <= terms@.len(),
                crate::path::views(terms@) == split_on(q@, '|'),
                q@ == trimmed(pred@),
                amp == q@.contains('&'),
                bar == q@.contains('|'),
                !amp && bar,
                crate::path::views(words@) == split_dots(path@),
                forall|k: int| 0 <= k < i ==> !split_dots(path@).contains(trimmed(#[trigger] split_on(q@, '|')[k])),
            decreases terms@.len() - i,
        {
            let t = trim_text(terms[i].as_str());
            proof {
                assert(crate::path::views(terms@)[i as int] == terms@[i as int]@);
            }
            if word_in(&words, t) {
                proof {
                    assert(crate::path::views(terms@).len() == terms@.len());
                    assert(split_dots(path@).contains(trimmed(split_on(q@, '|')[i as int])));
                }
                return true;
            }
            i = i + 1;
        }
        return false;
    }
    false
}

} // verus!
