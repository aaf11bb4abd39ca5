//! Paths as sequences of components, and the component-wise operations on them.

use vstd::prelude::*;

verus! {

/// The components of the path written `s`, as `std::path::Path::components`
/// yields them (the root is the component `/`).
pub uninterp spec fn components_of(s: Seq<char>) -> Seq<Seq<char>>;

/// The path written by joining the components `c`, as `std::path::PathBuf`
/// collects them.
pub uninterp spec fn path_of(c: Seq<Seq<char>>) -> Seq<char>;

/// Relies on `std::path::Path::components`: splits a path into its components.
#[verifier::external_body]
pub(crate) fn split_components(s: &str) -> (r: Vec<String>)
    ensures
        r.deep_view() == components_of(s@),
{
    std::path::Path::new(s).components().map(|c| c.as_os_str().to_string_lossy().into_owned()).collect()
}

/// Relies on `std::path::PathBuf`'s `FromIterator`: joins components into a path.
#[verifier::external_body]
pub(crate) fn join_components(c: &Vec<String>) -> (r: String)
    ensures
        r@ == path_of(c.deep_view()),
{
    c.iter().collect::<std::path::PathBuf>().to_string_lossy().into_owned()
}

/// Number of trailing components, counted from position `i` from the end on,
/// that `a` and `b` have in common.
pub open spec fn suffix_run(a: Seq<Seq<char>>, b: Seq<Seq<char>>, i: int) -> int
    decreases a.len() - i,
{
    if 0 <= i < a.len() && i < b.len() && a[a.len() - 1 - i] == b[b.len() - 1 - i] {
        1 + suffix_run(a, b, i + 1)
    } else {
        0
    }
}

/// Number of trailing components that `a` and `b` have in common.
pub open spec fn common_suffix_len(a: Seq<Seq<char>>, b: Seq<Seq<char>>) -> int {
    suffix_run(a, b, 0)
}

/// Number of leading components, from position `i` on, that `a` and `b` have in common.
pub open spec fn prefix_run(a: Seq<Seq<char>>, b: Seq<Seq<char>>, i: int) -> int
    decreases a.len() - i,
{
    if 0 <= i < a.len() && i < b.len() && a[i] == b[i] {
        1 + prefix_run(a, b, i + 1)
    } else {
        0
    }
}

/// Number of leading components that `a` and `b` have in common.
pub open spec fn common_prefix_len(a: Seq<Seq<char>>, b: Seq<Seq<char>>) -> int {
    prefix_run(a, b, 0)
}

/// Counts the trailing components that `a` and `b` share.
pub fn common_suffix_count(a: &Vec<String>, b: &Vec<String>) -> (r: usize)
    ensures
        r == common_suffix_len(a.deep_view(), b.deep_view()),
{
    let ghost av = a.deep_view();
    let ghost bv = b.deep_view();
    let mut i: usize = 0;
    while i < a.len() && i < b.len() && a[a.len() - 1 - i] == b[b.len() - 1 - i]
        invariant
            av == a.deep_view(),
            bv == b.deep_view(),
            i <= a@.len(),
            i <= b@.len(),
            suffix_run(av, bv, 0) == i + suffix_run(av, bv, i as int),
        decreases a@.len() - i,
    {
        i = i + 1;
    }
    i
}

/// Counts the leading components that `a` and `b` share.
pub fn common_prefix_count(a: &Vec<String>, b: &Vec<String>) -> (r: usize)
    ensures
        r == common_prefix_len(a.deep_view(), b.deep_view()),
{
    let ghost av = a.deep_view();
    let ghost bv = b.deep_view();
    let mut i: usize = 0;
    while i < a.len() && i < b.len() && a[i] == b[i]
        invariant
            av == a.deep_view(),
            bv == b.deep_view(),
            i <= a@.len(),
            i <= b@.len(),
            prefix_run(av, bv, 0) == i + prefix_run(av, bv, i as int),
        decreases a@.len() - i,
    {
        i = i + 1;
    }
    i
}


/// `path` with the components of `suffix` taken off its end, when `suffix`
/// matches the trailing components of `path` and leaves at least one.
pub open spec fn strip_suffix(path: Seq<Seq<char>>, suffix: Seq<Seq<char>>) -> Option<Seq<Seq<char>>> {
    if suffix.len() < path.len() && path.subrange(path.len() - suffix.len(), path.len() as int) == suffix {
        Some(path.take(path.len() - suffix.len()))
    } else {
        None
    }
}

/// Takes the components of `suffix` off the end of `path`; `None` when they do
/// not match its trailing components or when nothing would remain.
pub fn remove_common_suffix_components(path: &Vec<String>, suffix: &Vec<String>) -> (r: Option<Vec<String>>)
    ensures
        r matches Some(q) ==> strip_suffix(path.deep_view(), suffix.deep_view()) == Some(q.deep_view()),
        r is None ==> strip_suffix(path.deep_view(), suffix.deep_view()) is None,
{
    let ghost pv = path.deep_view();
    let ghost sv = suffix.deep_view();
    if suffix.len() >= path.len() {
        return None;
    }
    let shared = common_suffix_count(path, suffix);
    proof {
        lemma_suffix_run(pv, sv, 0);
    }
    if shared < suffix.len() {
        proof {
            let k = shared as int;
            assert(pv.subrange(pv.len() - sv.len(), pv.len() as int)[sv.len() - 1 - k] == pv[pv.len() - 1 - k]);
        }
        return None;
    }
    let keep = path.len() - suffix.len();
    let mut q: Vec<String> = Vec::new();
    let mut i: usize = 0;
    while i < keep
        invariant
            pv == path.deep_view(),
            keep <= path@.len(),
            i <= keep,
            q@.len() == i,
            pv.len() == path@.len(),
            q.deep_view() == pv.take(i as int),
        decreases keep - i,
    {
        let c = path[i].clone();
        let ghost before = q@;
        q.push(c);
        proof {
            assert forall|j: int| 0 <= j <= i implies #[trigger] q.deep_view()[j] == pv.take(i as int + 1)[j] by {
                if j < i {
                    assert(q@[j] == before[j]);
                }
            }
            assert(q.deep_view() =~= pv.take(i as int + 1));
        }
        i = i + 1;
    }
    proof {
        assert forall|j: int| 0 <= j < sv.len() implies #[trigger] pv.subrange(pv.len() - sv.len(), pv.len() as int)[j] == sv[j] by {
            let k = sv.len() - 1 - j;
            assert(pv[pv.len() - 1 - k] == sv[sv.len() - 1 - k]);
        }
        assert(pv.subrange(pv.len() - sv.len(), pv.len() as int) =~= sv);
    }
    Some(q)
}

proof fn lemma_suffix_run(a: Seq<Seq<char>>, b: Seq<Seq<char>>, i: int)
    requires
        0 <= i,
    ensures
        i + suffix_run(a, b, i) <= a.len() || suffix_run(a, b, i) == 0,
        forall|k: int| i <= k < i + suffix_run(a, b, i) ==> #[trigger] a[a.len() - 1 - k] == b[b.len() - 1 - k],
        i + suffix_run(a, b, i) < a.len() && i + suffix_run(a, b, i) < b.len() ==> a[a.len() - 1 - (i + suffix_run(a, b, i))]
            != b[b.len() - 1 - (i + suffix_run(a, b, i))],
    decreases a.len() - i,
{
    if 0 <= i < a.len() && i < b.len() && a[a.len() - 1 - i] == b[b.len() - 1 - i] {
        lemma_suffix_run(a, b, i + 1);
    }
}

/// Takes the components of the path `suffix` off the end of the path `path`,
/// as `remove_common_suffix_components` does, and writes the rest as a path.
pub fn remove_common_suffix(path: &str, suffix: &str) -> (r: Option<String>)
    ensures
        r matches Some(q) ==> strip_suffix(components_of(path@), components_of(suffix@)) matches Some(c)
            && q@ == path_of(c),
        r is None ==> strip_suffix(components_of(path@), components_of(suffix@)) is None,
{
    let p = split_components(path);
    let s = split_components(suffix);
    match remove_common_suffix_components(&p, &s) {
        Some(q) => Some(join_components(&q)),
        None => None,
    }
}

/// The trailing components that `remove_common_suffix_components` takes off
/// are exactly those of `suffix`: it succeeds when each component of `suffix`
/// equals the trailing component of `path` at the same place from the end (a
/// `suffix` as long as `path` is left out: nothing would remain), and what it
/// returns is a prefix of `path`, a strict one unless `suffix` is empty.
pub proof fn lemma_strip_suffix_matches(path: Seq<Seq<char>>, suffix: Seq<Seq<char>>)
    requires
        suffix.len() != path.len(),
    ensures
        strip_suffix(path, suffix) is Some <==> (suffix.len() <= path.len() && forall|i: int|
            0 <= i < suffix.len() ==> #[trigger] suffix[i] == path[path.len() - suffix.len() + i]),
        strip_suffix(path, suffix) matches Some(q) ==> q == path.take(q.len() as int) && (suffix.len() > 0 ==> q.len() < path.len()),
{
    if suffix.len() <= path.len() && forall|i: int|
        0 <= i < suffix.len() ==> #[trigger] suffix[i] == path[path.len() - suffix.len() + i] {
        assert(path.subrange(path.len() - suffix.len(), path.len() as int) =~= suffix);
    }
    if strip_suffix(path, suffix) is Some {
        assert forall|i: int| 0 <= i < suffix.len() implies #[trigger] suffix[i] == path[path.len() - suffix.len() + i] by {
            assert(path.subrange(path.len() - suffix.len(), path.len() as int)[i] == path[path.len() - suffix.len() + i]);
        }
    }
}


/// Where a component stands among the kinds of component: the root, `.`,
/// `..`, then every named component.
pub open spec fn component_rank(c: Seq<char>) -> int {
    if c == seq!['/'] {
        0
    } else if c == seq!['.'] {
        1
    } else if c == seq!['.', '.'] {
        2
    } else {
        3
    }
}

/// `a` comes before `b` in the order of characters, comparing from position `i` on.
pub open spec fn chars_lt_from(a: Seq<char>, b: Seq<char>, i: int) -> bool
    decreases a.len() - i,
{
    if i < 0 {
        false
    } else if i >= a.len() {
        i < b.len()
    } else if i >= b.len() {
        false
    } else if a[i] != b[i] {
        (a[i] as int) < (b[i] as int)
    } else {
        chars_lt_from(a, b, i + 1)
    }
}

/// The order of components: by kind, then named components by their characters.
pub open spec fn component_lt(a: Seq<char>, b: Seq<char>) -> bool {
    component_rank(a) < component_rank(b) || (component_rank(a) == 3 && component_rank(b) == 3
        && chars_lt_from(a, b, 0))
}

/// `a` comes before `b` in the order of paths, comparing components from position `i` on.
pub open spec fn path_lt_from(a: Seq<Seq<char>>, b: Seq<Seq<char>>, i: int) -> bool
    decreases a.len() - i,
{
    if i < 0 {
        false
    } else if i >= a.len() {
        i < b.len()
    } else if i >= b.len() {
        false
    } else if a[i] != b[i] {
        component_lt(a[i], b[i])
    } else {
        path_lt_from(a, b, i + 1)
    }
}

/// The order of paths: component by component, a path before its extensions.
pub open spec fn path_lt(a: Seq<Seq<char>>, b: Seq<Seq<char>>) -> bool {
    path_lt_from(a, b, 0)
}

proof fn lemma_chars_order(a: Seq<char>, b: Seq<char>, c: Seq<char>, i: int)
    requires
        0 <= i,
    ensures
        chars_lt_from(a, b, i) && chars_lt_from(b, c, i) ==> chars_lt_from(a, c, i),
        i <= a.len() && i <= b.len() && !chars_lt_from(a, b, i) && !chars_lt_from(b, a, i) ==> a.len() == b.len() && forall|k: int|
            i <= k < a.len() ==> a[k] == b[k],
        !(chars_lt_from(a, b, i) && chars_lt_from(b, a, i)),
    decreases a.len() - i,
{
    if i < a.len() && i < b.len() {
        lemma_chars_order(a, b, c, i + 1);
        if a[i] != b[i] {
            assert((a[i] as int) != (b[i] as int));
        }
    }
}

proof fn lemma_component_order(a: Seq<char>, b: Seq<char>, c: Seq<char>)
    ensures
        component_lt(a, b) && component_lt(b, c) ==> component_lt(a, c),
        !component_lt(a, b) && !component_lt(b, a) ==> a == b,
        !(component_lt(a, b) && component_lt(b, a)),
{
    lemma_chars_order(a, b, c, 0);
    if !component_lt(a, b) && !component_lt(b, a) && component_rank(a) == 3 {
        assert(a =~= b);
    }
}

proof fn lemma_path_order(a: Seq<Seq<char>>, b: Seq<Seq<char>>, c: Seq<Seq<char>>, i: int)
    requires
        0 <= i,
    ensures
        path_lt_from(a, b, i) && path_lt_from(b, c, i) ==> path_lt_from(a, c, i),
        i <= a.len() && i <= b.len() && !path_lt_from(a, b, i) && !path_lt_from(b, a, i) ==> a.len() == b.len() && forall|k: int|
            i <= k < a.len() ==> a[k] == b[k],
        !(path_lt_from(a, b, i) && path_lt_from(b, a, i)),
    decreases a.len() - i,
{
    if i < a.len() && i < b.len() {
        if i < c.len() {
            lemma_component_order(a[i], b[i], c[i]);
            lemma_component_order(b[i], c[i], a[i]);
            lemma_component_order(a[i], c[i], b[i]);
        } else {
            lemma_component_order(a[i], b[i], a[i]);
        }
        lemma_path_order(a, b, c, i + 1);
    }
}

/// The order of paths is a strict total order.
pub proof fn lemma_path_lt_total_order(a: Seq<Seq<char>>, b: Seq<Seq<char>>, c: Seq<Seq<char>>)
    ensures
        path_lt(a, b) && path_lt(b, c) ==> path_lt(a, c),
        !path_lt(a, b) && !path_lt(b, a) ==> a == b,
        !(path_lt(a, b) && path_lt(b, a)),
{
    lemma_path_order(a, b, c, 0);
    if !path_lt(a, b) && !path_lt(b, a) {
        assert(a =~= b);
    }
}

fn component_rank_of(c: &String) -> (r: u8)
    ensures
        r == component_rank(c@),
{
    let s = c.as_str();
    let n = s.unicode_len();
    if n == 1 {
        let x = s.get_char(0);
        if x == '/' {
            assert(c@ =~= seq!['/']);
            return 0;
        } else if x == '.' {
            assert(c@ =~= seq!['.']);
            return 1;
        }
        assert(c@ != seq!['.', '.']);
    } else if n == 2 {
        if s.get_char(0) == '.' && s.get_char(1) == '.' {
            assert(c@ =~= seq!['.', '.']);
            return 2;
        }
        assert(c@ != seq!['.', '.'] || c@[1] != '.' || c@[0] != '.');
    }
    3
}

fn chars_lt(a: &String, b: &String) -> (r: bool)
    ensures
        r == chars_lt_from(a@, b@, 0),
{
    let x = a.as_str();
    let y = b.as_str();
    let n = x.unicode_len();
    let m = y.unicode_len();
    let mut i: usize = 0;
    while i < n && i < m && x.get_char(i) == y.get_char(i)
        invariant
            n == a@.len(),
            m == b@.len(),
            x@ == a@,
            y@ == b@,
            i <= n,
            i <= m,
            chars_lt_from(a@, b@, 0) == chars_lt_from(a@, b@, i as int),
        decreases n - i,
    {
        i = i + 1;
    }
    if i >= n {
        i < m
    } else if i >= m {
        false
    } else {
        (x.get_char(i) as u32) < (y.get_char(i) as u32)
    }
}

fn component_less(a: &String, b: &String) -> (r: bool)
    ensures
        r == component_lt(a@, b@),
{
    let ra = component_rank_of(a);
    let rb = component_rank_of(b);
    if ra != rb {
        ra < rb
    } else {
        ra == 3 && chars_lt(a, b)
    }
}

/// Whether the path `a` comes before the path `b`.
pub fn path_less(a: &Vec<String>, b: &Vec<String>) -> (r: bool)
    ensures
        r == path_lt(a.deep_view(), b.deep_view()),
{
    let ghost av = a.deep_view();
    let ghost bv = b.deep_view();
    let mut i: usize = 0;
    while i < a.len() && i < b.len() && a[i] == b[i]
        invariant
            av == a.deep_view(),
            bv == b.deep_view(),
            i <= a@.len(),
            i <= b@.len(),
            path_lt(av, bv) == path_lt_from(av, bv, i as int),
        decreases a@.len() - i,
    {
        i = i + 1;
    }
    if i >= a.len() {
        i < b.len()
    } else if i >= b.len() {
        false
    } else {
        component_less(&a[i], &b[i])
    }
}

} // verus!
