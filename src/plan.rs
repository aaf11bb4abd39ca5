//! Deciding how a verified torrent is seeded: from a directory that already
//! has its layout, or from a tree of symbolic links under a per-tracker directory.

use vstd::prelude::*;
use crate::path::{remove_common_suffix_components, strip_suffix};

verus! {

/// The host of the URL written `s`, when it parses and has one.
pub uninterp spec fn announce_host(s: Seq<char>) -> Option<Seq<char>>;

/// Relies on `url::Url::parse` and `url::Url::host_str`: the host of an announce URL.
#[verifier::external_body]
fn url_host(s: &str) -> (r: Option<String>)
    ensures
        r is Some <==> announce_host(s@) is Some,
        r matches Some(h) ==> announce_host(s@) == Some(h@),
{
    url::Url::parse(s).ok().and_then(|u| u.host_str().map(|h| h.to_string()))
}

/// A declared file and the local file chosen for it.
pub struct Match {
    pub declared: Vec<String>,
    pub local: Vec<String>,
}

/// A declared path and a local path, as component sequences.
pub type PathPair = (Seq<Seq<char>>, Seq<Seq<char>>);

pub open spec fn matches_view(m: Seq<Match>) -> Seq<PathPair> {
    Seq::new(m.len(), |i: int| (m[i].declared.deep_view(), m[i].local.deep_view()))
}

/// What to do to seed a torrent.
pub enum SeedPlan {
    /// Point the client at `seed_dir`; nothing is created.
    Direct { seed_dir: Vec<String> },
    /// Create each of `dirs`, then each link of `links` (the link's path, then
    /// the file it points to), then point the client at `base_dir`.
    Shadow { base_dir: Vec<String>, dirs: Vec<Vec<String>>, links: Vec<(Vec<String>, Vec<String>)> },
}

/// Why no plan could be made.
#[derive(Clone, Copy, Debug, PartialEq, Eq)]
pub enum PlanError {
    /// The announce URL does not parse or has no host.
    NoHost,
}

/// The directory that all local files share once their declared paths are
/// taken off, when there is one.
pub open spec fn common_root(m: Seq<PathPair>) -> Option<Seq<Seq<char>>> {
    if m.len() > 0 && strip_suffix(m[0].1, m[0].0) is Some && forall|i: int|
        0 <= i < m.len() ==> strip_suffix((#[trigger] m[i]).1, m[i].0) == strip_suffix(m[0].1, m[0].0) {
        strip_suffix(m[0].1, m[0].0)
    } else {
        None
    }
}

/// A single-file torrent whose local file already has the declared name.
pub open spec fn single_named_alike(m: Seq<PathPair>) -> bool {
    m.len() > 0 && m[0].1.len() > 0 && m[0].0 == seq![m[0].1.last()]
}

/// Seeding needs no new files: the directory to seed from, if so.
pub open spec fn direct_seed_dir(is_single_file: bool, m: Seq<PathPair>) -> Option<Seq<Seq<char>>> {
    if is_single_file {
        if single_named_alike(m) {
            Some(m[0].1.drop_last())
        } else {
            None
        }
    } else {
        common_root(m)
    }
}

/// The links of the shadow tree under `base`: one per match, at the declared path.
pub open spec fn shadow_links(base: Seq<Seq<char>>, m: Seq<PathPair>) -> Seq<PathPair> {
    Seq::new(m.len(), |i: int| (base + m[i].0, m[i].1))
}

/// The directories of the shadow tree under `base`: the parent of each link,
/// or `base` itself for a single-file torrent.
pub open spec fn shadow_dirs(is_single_file: bool, base: Seq<Seq<char>>, m: Seq<PathPair>) -> Seq<Seq<Seq<char>>> {
    if is_single_file {
        seq![base]
    } else {
        Seq::new(m.len(), |i: int| if m[i].0.len() > 0 { base + m[i].0.drop_last() } else { base })
    }
}

pub open spec fn links_view(l: Seq<(Vec<String>, Vec<String>)>) -> Seq<PathPair> {
    Seq::new(l.len(), |i: int| (l[i].0.deep_view(), l[i].1.deep_view()))
}

pub open spec fn dirs_view(d: Seq<Vec<String>>) -> Seq<Seq<Seq<char>>> {
    Seq::new(d.len(), |i: int| d[i].deep_view())
}

/// The per-tracker directory: `target_dir` joined with the announce URL's host.
pub open spec fn base_dir_of(target_dir: Seq<Seq<char>>, announce: Seq<char>) -> Option<Seq<Seq<char>>> {
    match announce_host(announce) {
        Some(h) => Some(target_dir.push(h)),
        None => None,
    }
}

fn push_component(r: &mut Vec<String>, c: String)
    ensures
        final(r).deep_view() == old(r).deep_view().push(c@),
{
    r.push(c);
    assert(final(r).deep_view() =~= old(r).deep_view().push(c@)) by {
        assert(final(r)@ == old(r)@.push(c));
    }
}

fn concat(a: &Vec<String>, b: &Vec<String>) -> (r: Vec<String>)
    ensures
        r.deep_view() == a.deep_view() + b.deep_view(),
{
    let mut r: Vec<String> = Vec::new();
    let mut i: usize = 0;
    while i < a.len()
        invariant
            i <= a@.len(),
            r.deep_view() == a.deep_view().take(i as int),
        decreases a@.len() - i,
    {
        push_component(&mut r, a[i].clone());
        assert(r.deep_view() =~= a.deep_view().take(i as int + 1));
        i = i + 1;
    }
    let mut j: usize = 0;
    while j < b.len()
        invariant
            j <= b@.len(),
            r.deep_view() == a.deep_view() + b.deep_view().take(j as int),
        decreases b@.len() - j,
    {
        push_component(&mut r, b[j].clone());
        assert(r.deep_view() =~= a.deep_view() + b.deep_view().take(j as int + 1));
        j = j + 1;
    }
    assert(b.deep_view().take(b@.len() as int) =~= b.deep_view());
    r
}

fn without_last(a: &Vec<String>) -> (r: Vec<String>)
    requires
        a@.len() > 0,
    ensures
        r.deep_view() == a.deep_view().drop_last(),
{
    let mut r: Vec<String> = Vec::new();
    let mut i: usize = 0;
    while i < a.len() - 1
        invariant
            a@.len() > 0,
            i < a@.len(),
            r.deep_view() == a.deep_view().take(i as int),
        decreases a@.len() - i,
    {
        push_component(&mut r, a[i].clone());
        assert(r.deep_view() =~= a.deep_view().take(i as int + 1));
        i = i + 1;
    }
    assert(a.deep_view().take(i as int) =~= a.deep_view().drop_last());
    r
}

/// The per-tracker directory under `target_dir`; `None` when the announce URL
/// has no host.
pub fn base_dir(target_dir: &Vec<String>, announce: &str) -> (r: Option<Vec<String>>)
    ensures
        r is Some <==> base_dir_of(target_dir.deep_view(), announce@) is Some,
        r matches Some(b) ==> base_dir_of(target_dir.deep_view(), announce@) == Some(b.deep_view()),
{
    match url_host(announce) {
        Some(h) => {
            let mut b = concat(target_dir, &Vec::new());
            push_component(&mut b, h);
            assert(target_dir.deep_view() + Seq::<Seq<char>>::empty() =~= target_dir.deep_view());
            Some(b)
        },
        None => None,
    }
}


/// Whether two paths have the same components.
pub fn same_path(a: &Vec<String>, b: &Vec<String>) -> (r: bool)
    ensures
        r == (a.deep_view() == b.deep_view()),
{
    if a.len() != b.len() {
        assert(a.deep_view().len() != b.deep_view().len());
        return false;
    }
    let mut i: usize = 0;
    while i < a.len()
        invariant
            a@.len() == b@.len(),
            i <= a@.len(),
            forall|k: int| 0 <= k < i ==> a.deep_view()[k] == b.deep_view()[k],
        decreases a@.len() - i,
    {
        if a[i] != b[i] {
            assert(a.deep_view()[i as int] != b.deep_view()[i as int]);
            return false;
        }
        i = i + 1;
    }
    assert(a.deep_view() =~= b.deep_view());
    true
}

fn clone_path(a: &Vec<String>) -> (r: Vec<String>)
    ensures
        r.deep_view() == a.deep_view(),
{
    let r = concat(a, &Vec::new());
    assert(a.deep_view() + Seq::<Seq<char>>::empty() =~= a.deep_view());
    r
}

/// The directory that all local files share once their declared paths are
/// taken off, as `common_root` states.
fn find_common_root(matches: &Vec<Match>) -> (r: Option<Vec<String>>)
    requires
        matches@.len() > 0,
    ensures
        r is Some <==> common_root(matches_view(matches@)) is Some,
        r matches Some(q) ==> common_root(matches_view(matches@)) == Some(q.deep_view()),
{
    let ghost mv = matches_view(matches@);
    let first = match remove_common_suffix_components(&matches[0].local, &matches[0].declared) {
        Some(q) => q,
        None => return None,
    };
    let mut i: usize = 1;
    while i < matches.len()
        invariant
            mv == matches_view(matches@),
            mv.len() == matches@.len(),
            1 <= i <= mv.len(),
            strip_suffix(mv[0].1, mv[0].0) == Some(first.deep_view()),
            forall|k: int| 0 <= k < i ==> strip_suffix((#[trigger] mv[k]).1, mv[k].0) == Some(first.deep_view()),
        decreases mv.len() - i,
    {
        assert(mv[i as int].1 == matches@[i as int].local.deep_view());
        assert(mv[i as int].0 == matches@[i as int].declared.deep_view());
        match remove_common_suffix_components(&matches[i].local, &matches[i].declared) {
            Some(q) => {
                if !same_path(&q, &first) {
                    return None;
                }
            },
            None => {
                return None;
            },
        }
        i = i + 1;
    }
    Some(first)
}

/// The plan is the one that the matches call for: seeding directly where
/// `direct_seed_dir` gives a directory, else a shadow tree under `base`.
pub open spec fn plan_matches(plan: SeedPlan, is_single_file: bool, m: Seq<PathPair>, base: Option<Seq<Seq<char>>>) -> bool {
    match direct_seed_dir(is_single_file, m) {
        Some(d) => plan matches SeedPlan::Direct { seed_dir } && seed_dir.deep_view() == d,
        None => base matches Some(b) && plan matches SeedPlan::Shadow { base_dir, dirs, links }
            && base_dir.deep_view() == b && dirs_view(dirs@) == shadow_dirs(is_single_file, b, m)
            && links_view(links@) == shadow_links(b, m),
    }
}

/// Decides how to seed a torrent whose files were matched to `matches` (one
/// match for a single-file torrent): directly from a directory when the local
/// files already have the declared layout, else from a shadow tree under the
/// per-tracker directory of `target_dir`.
pub fn plan_cross_seed(is_single_file: bool, announce: &str, target_dir: &Vec<String>, matches: &Vec<Match>) -> (r: Result<SeedPlan, PlanError>)
    requires
        matches@.len() > 0,
    ensures
        r is Err <==> direct_seed_dir(is_single_file, matches_view(matches@)) is None
            && base_dir_of(target_dir.deep_view(), announce@) is None,
        r matches Err(e) ==> e == PlanError::NoHost,
        r matches Ok(plan) ==> plan_matches(
            plan,
            is_single_file,
            matches_view(matches@),
            base_dir_of(target_dir.deep_view(), announce@),
        ),
{
    let ghost mv = matches_view(matches@);
    if is_single_file {
        let m = &matches[0];
        if m.local.len() > 0 && m.declared.len() == 1 && m.declared[0] == m.local[m.local.len() - 1] {
            assert(mv[0].0 =~= seq![mv[0].1.last()]);
            return Ok(SeedPlan::Direct { seed_dir: without_last(&m.local) });
        }
        assert(!single_named_alike(mv)) by {
            if single_named_alike(mv) {
                assert(mv[0].0[0] == mv[0].1.last());
            }
        }
    } else {
        match find_common_root(matches) {
            Some(root) => {
                return Ok(SeedPlan::Direct { seed_dir: root });
            },
            None => {},
        }
    }
    let base = match base_dir(target_dir, announce) {
        Some(b) => b,
        None => return Err(PlanError::NoHost),
    };
    let mut dirs: Vec<Vec<String>> = Vec::new();
    if is_single_file {
        dirs.push(clone_path(&base));
        assert(dirs_view(dirs@) =~= seq![base.deep_view()]);
    }
    let mut links: Vec<(Vec<String>, Vec<String>)> = Vec::new();
    let mut i: usize = 0;
    while i < matches.len()
        invariant
            mv == matches_view(matches@),
            mv.len() == matches@.len(),
            i <= mv.len(),
            links@.len() == i,
            links_view(links@) == shadow_links(base.deep_view(), mv).take(i as int),
            !is_single_file ==> dirs_view(dirs@) == shadow_dirs(false, base.deep_view(), mv).take(i as int),
            is_single_file ==> dirs_view(dirs@) == shadow_dirs(true, base.deep_view(), mv),
        decreases mv.len() - i,
    {
        let link = concat(&base, &matches[i].declared);
        let target = clone_path(&matches[i].local);
        links.push((link, target));
        assert(links_view(links@) =~= shadow_links(base.deep_view(), mv).take(i as int + 1));
        if !is_single_file {
            if matches[i].declared.len() > 0 {
                let parent = without_last(&matches[i].declared);
                dirs.push(concat(&base, &parent));
            } else {
                dirs.push(clone_path(&base));
            }
            assert(dirs_view(dirs@) =~= shadow_dirs(false, base.deep_view(), mv).take(i as int + 1));
        }
        i = i + 1;
    }
    assert(shadow_links(base.deep_view(), mv).take(mv.len() as int) =~= shadow_links(base.deep_view(), mv));
    assert(shadow_dirs(false, base.deep_view(), mv).take(mv.len() as int) =~= shadow_dirs(false, base.deep_view(), mv));
    Ok(SeedPlan::Shadow { base_dir: base, dirs, links })
}

} // verus!
