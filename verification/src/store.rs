//! The on-disk shape of one benchmark run: which relative path each
//! record lands on, and the staged file set a run builds up before its
//! atomic commit.
//!
//! A run directory is modelled as a list of `(relative path, content)`
//! pairs with distinct paths.  A benchmark id maps to a path by splitting
//! on `/` and suffixing `.json`; a group record lands on
//! `<group>/group.json`.  Reading ids back out of a path list is the
//! exact inverse on every path a valid id can produce, which is what
//! keeps the manifest and the directory in step.

use vstd::prelude::*;

use crate::emit::pairs_view;
use crate::events::{group_json_spec, GroupComplete};
use crate::text::{chars_eq_str, chars_to_string, str_to_chars};

verus! {

/// First `/` at or after `i`, or the length if there is none.
pub open spec fn find_slash(s: Seq<char>, i: int) -> int
    decreases s.len() - i,
{
    if 0 <= i < s.len() {
        if s[i] == '/' {
            i
        } else {
            find_slash(s, i + 1)
        }
    } else {
        i
    }
}

pub proof fn lemma_find_slash_bounds(s: Seq<char>, i: int)
    requires
        0 <= i <= s.len(),
    ensures
        i <= find_slash(s, i) <= s.len(),
        find_slash(s, i) < s.len() ==> s[find_slash(s, i)] == '/',
        forall|j: int| i <= j < find_slash(s, i) ==> s[j] != '/',
    decreases s.len() - i,
{
    if i < s.len() && s[i] != '/' {
        lemma_find_slash_bounds(s, i + 1);
    }
}

/// The pieces of `s` between slashes, from `i` on.
pub open spec fn split_from(s: Seq<char>, i: int) -> Seq<Seq<char>>
    decreases s.len() - i,
{
    let j = find_slash(s, i);
    if j < i || j >= s.len() {
        seq![s.subrange(i, s.len() as int)]
    } else {
        seq![s.subrange(i, j)] + split_from(s, j + 1)
    }
}

/// The segments of a slash-delimited id or relative path.
pub open spec fn split_slash(s: Seq<char>) -> Seq<Seq<char>> {
    split_from(s, 0)
}

/// A usable path segment: nonempty and not a directory alias.
pub open spec fn valid_segment(seg: Seq<char>) -> bool {
    seg.len() > 0 && seg != "."@ && seg != ".."@ && (forall|j: int|
        0 <= j < seg.len() ==> seg[j] != '/')
}

/// A benchmark id the store accepts: every segment usable, the leaf not
/// the reserved group record name, and a single segment not one of the
/// run's own file names.
pub open spec fn valid_id(id: Seq<char>) -> bool {
    let segs = split_slash(id);
    &&& forall|p: int| 0 <= p < segs.len() ==> valid_segment(#[trigger] segs[p])
    &&& segs[segs.len() - 1] != "group"@
    &&& !(segs.len() == 1 && (id == "run"@ || id == "system_info"@))
}

/// Where a benchmark result is stored, relative to the run directory.
pub open spec fn id_path(id: Seq<char>) -> Seq<char> {
    id + ".json"@
}

/// Where a group record is stored, relative to the run directory.
pub open spec fn group_path(g: Seq<char>) -> Seq<char> {
    g + "/group.json"@
}

/// Does `p` end in `.json`?
pub open spec fn ends_json(p: Seq<char>) -> bool {
    p.len() >= 5 && p.skip(p.len() - 5) == ".json"@
}

/// The benchmark id a stored file stands for, if any: strip the `.json`
/// suffix, then rule out the run's own files and group records.
pub open spec fn path_to_id(p: Seq<char>) -> Option<Seq<char>> {
    if !ends_json(p) {
        None
    } else {
        let stem = p.take(p.len() - 5);
        let segs = split_slash(stem);
        if segs.len() == 1 && (stem == "run"@ || stem == "system_info"@) {
            None
        } else if segs.len() > 1 && segs[segs.len() - 1] == "group"@ {
            None
        } else {
            Some(stem)
        }
    }
}

/// The benchmark ids a run directory's files stand for, in file order.
pub open spec fn ids_of_paths(files: Seq<(Seq<char>, Seq<char>)>) -> Seq<Seq<char>>
    decreases files.len(),
{
    if files.len() == 0 {
        Seq::empty()
    } else {
        (match path_to_id(files[0].0) {
            Some(id) => seq![id],
            None => Seq::empty(),
        }) + ids_of_paths(files.skip(1))
    }
}

pub proof fn lemma_ids_of_paths_snoc(files: Seq<(Seq<char>, Seq<char>)>, f: (Seq<char>, Seq<char>))
    ensures
        ids_of_paths(files.push(f)) == ids_of_paths(files) + (match path_to_id(f.0) {
            Some(id) => seq![id],
            None => Seq::empty(),
        }),
    decreases files.len(),
{
    if files.len() == 0 {
        reveal_with_fuel(ids_of_paths, 3);
        assert(files.push(f)[0] == f);
        assert(files.push(f).skip(1) =~= Seq::<(Seq<char>, Seq<char>)>::empty());
        assert(ids_of_paths(files.push(f)) =~= ids_of_paths(files) + (match path_to_id(f.0) {
            Some(id) => seq![id],
            None => Seq::empty(),
        }));
    } else {
        lemma_ids_of_paths_snoc(files.skip(1), f);
        assert(files.push(f).skip(1) =~= files.skip(1).push(f));
        assert(files.push(f)[0] == files[0]);
        assert(ids_of_paths(files.push(f)) =~= ids_of_paths(files) + (match path_to_id(f.0) {
            Some(id) => seq![id],
            None => Seq::empty(),
        }));
    }
}

/// Extraction looks only at the paths, never the contents.
pub proof fn lemma_ids_of_paths_same_paths(
    f1: Seq<(Seq<char>, Seq<char>)>,
    f2: Seq<(Seq<char>, Seq<char>)>,
)
    requires
        f1.len() == f2.len(),
        forall|p: int| 0 <= p < f1.len() ==> (#[trigger] f1[p]).0 == (#[trigger] f2[p]).0,
    ensures
        ids_of_paths(f1) == ids_of_paths(f2),
    decreases f1.len(),
{
    if f1.len() > 0 {
        assert(f1.skip(1).len() == f2.skip(1).len());
        assert forall|p: int| 0 <= p < f1.skip(1).len() implies (#[trigger] f1.skip(1)[p]).0 == (
        #[trigger] f2.skip(1)[p]).0 by {
            assert(f1.skip(1)[p] == f1[p + 1]);
            assert(f2.skip(1)[p] == f2[p + 1]);
        }
        lemma_ids_of_paths_same_paths(f1.skip(1), f2.skip(1));
        assert(f1[0].0 == f2[0].0);
    }
}

/// Replace the content under `p`, or add the file if it is new.
pub open spec fn upsert_file(
    files: Seq<(Seq<char>, Seq<char>)>,
    p: Seq<char>,
    c: Seq<char>,
) -> Seq<(Seq<char>, Seq<char>)>
    decreases files.len(),
{
    if files.len() == 0 {
        seq![(p, c)]
    } else if files[0].0 == p {
        seq![(p, c)] + files.skip(1)
    } else {
        seq![files[0]] + upsert_file(files.skip(1), p, c)
    }
}

/// Whether some file already sits on path `p`.
pub open spec fn has_path(files: Seq<(Seq<char>, Seq<char>)>, p: Seq<char>) -> bool {
    exists|i: int| 0 <= i < files.len() && (#[trigger] files[i]).0 == p
}

/// What upsert does to the extracted ids: nothing when the path was
/// already there, one more id (or nothing, for an excluded path) when it
/// was new.
pub proof fn lemma_ids_of_upsert(files: Seq<(Seq<char>, Seq<char>)>, p: Seq<char>, c: Seq<char>)
    ensures
        has_path(files, p) ==> ids_of_paths(upsert_file(files, p, c)) == ids_of_paths(files),
        !has_path(files, p) ==> ids_of_paths(upsert_file(files, p, c)) == ids_of_paths(files) + (
        match path_to_id(p) {
            Some(id) => seq![id],
            None => Seq::empty(),
        }),
    decreases files.len(),
{
    if files.len() == 0 {
        reveal_with_fuel(ids_of_paths, 3);
        assert(upsert_file(files, p, c) =~= seq![(p, c)]);
        assert(seq![(p, c)][0] == (p, c));
        assert(seq![(p, c)].skip(1) =~= Seq::<(Seq<char>, Seq<char>)>::empty());
        assert(ids_of_paths(upsert_file(files, p, c)) =~= ids_of_paths(files) + (
        match path_to_id(p) {
            Some(id) => seq![id],
            None => Seq::empty(),
        }));
    } else if files[0].0 == p {
        assert(has_path(files, p));
        let u = upsert_file(files, p, c);
        assert(u == seq![(p, c)] + files.skip(1));
        assert(u[0] == (p, c));
        assert(u.skip(1) =~= files.skip(1));
        assert(u.len() > 0);
        assert(path_to_id(u[0].0) == path_to_id(files[0].0));
        assert(ids_of_paths(u) == (match path_to_id(u[0].0) {
            Some(id) => seq![id],
            None => Seq::<Seq<char>>::empty(),
        }) + ids_of_paths(u.skip(1)));
        assert(ids_of_paths(u) == ids_of_paths(files));
    } else {
        lemma_ids_of_upsert(files.skip(1), p, c);
        let u = upsert_file(files, p, c);
        assert(u == seq![files[0]] + upsert_file(files.skip(1), p, c));
        assert(u[0] == files[0]);
        assert(u.skip(1) =~= upsert_file(files.skip(1), p, c));
        if has_path(files, p) {
            let i = choose|i: int| 0 <= i < files.len() && (#[trigger] files[i]).0 == p;
            assert(i != 0);
            assert(files.skip(1)[i - 1] == files[i]);
            assert(has_path(files.skip(1), p));
            assert(ids_of_paths(u) == ids_of_paths(files));
        } else {
            assert(!has_path(files.skip(1), p)) by {
                if has_path(files.skip(1), p) {
                    let i = choose|i: int|
                        0 <= i < files.skip(1).len() && (#[trigger] files.skip(1)[i]).0 == p;
                    assert(files[i + 1] == files.skip(1)[i]);
                }
            }
            assert(ids_of_paths(u) =~= ids_of_paths(files) + (match path_to_id(p) {
                Some(id) => seq![id],
                None => Seq::<Seq<char>>::empty(),
            }));
        }
    }
}

pub proof fn lemma_find_slash_at(s: Seq<char>, i: int, k: int)
    requires
        0 <= i <= k < s.len(),
        s[k] == '/',
        forall|j: int| i <= j < k ==> s[j] != '/',
    ensures
        find_slash(s, i) == k,
    decreases k - i,
{
    if i < k {
        lemma_find_slash_at(s, i + 1, k);
    }
}

pub proof fn lemma_find_slash_none(s: Seq<char>, i: int)
    requires
        0 <= i <= s.len(),
        forall|j: int| i <= j < s.len() ==> s[j] != '/',
    ensures
        find_slash(s, i) == s.len(),
    decreases s.len() - i,
{
    if i < s.len() {
        lemma_find_slash_none(s, i + 1);
    }
}

/// A valid id turns into a path that reads back as exactly that id.
pub proof fn lemma_path_to_id_of_id(id: Seq<char>)
    requires
        valid_id(id),
    ensures
        path_to_id(id_path(id)) == Some(id),
{
    reveal_strlit(".json");
    let p = id_path(id);
    assert(p.len() == id.len() + 5);
    assert(p.skip(p.len() - 5) =~= ".json"@);
    assert(ends_json(p));
    assert(p.take(p.len() - 5) =~= id);
    assert(path_to_id(p) == Some(id));
}

/// A group record's path never reads back as a benchmark id.
pub proof fn lemma_path_to_id_of_group(g: Seq<char>)
    requires
        valid_segment(g),
    ensures
        path_to_id(group_path(g)) == None::<Seq<char>>,
{
    reveal_strlit(".json");
    reveal_strlit("/group.json");
    reveal_strlit("/group");
    reveal_strlit("group");
    let p = group_path(g);
    assert(p.len() == g.len() + 11);
    assert(p.skip(p.len() - 5) =~= ".json"@);
    assert(ends_json(p));
    let stem = p.take(p.len() - 5);
    assert(stem =~= g + "/group"@);
    assert(stem[g.len() as int] == '/');
    assert forall|j: int| 0 <= j < g.len() implies stem[j] != '/' by {
        assert(stem[j] == g[j]);
    }
    lemma_find_slash_at(stem, 0, g.len() as int);
    assert forall|j: int|
        g.len() + 1 <= j < stem.len() implies stem[j] != '/' by {
        assert(stem[j] == "/group"@[j - g.len()]);
    }
    lemma_find_slash_none(stem, g.len() as int + 1);
    reveal_with_fuel(split_from, 3);
    let segs = split_slash(stem);
    assert(segs =~= seq![stem.subrange(0, g.len() as int)] + seq![
        stem.subrange(g.len() as int + 1, stem.len() as int),
    ]);
    assert(segs.len() == 2);
    assert(segs[1] =~= "group"@);
    assert(path_to_id(p) is None);
}

/// The run manifest's own file never reads back as a benchmark id.
pub proof fn lemma_path_to_id_run_json()
    ensures
        path_to_id("run.json"@) == None::<Seq<char>>,
{
    reveal_strlit(".json");
    reveal_strlit("run.json");
    reveal_strlit("run");
    let p = "run.json"@;
    assert(p.len() == 8);
    assert(p.skip(3) =~= ".json"@);
    assert(ends_json(p));
    let stem = p.take(3);
    assert(stem =~= "run"@);
    lemma_find_slash_none(stem, 0);
    assert(split_slash(stem) =~= seq![stem.subrange(0, 3)]);
    assert(stem.subrange(0, 3) =~= stem);
    assert(path_to_id(p) is None);
}

/// Where the first file on path `p` sits, if any.
pub open spec fn first_path_index(files: Seq<(Seq<char>, Seq<char>)>, p: Seq<char>) -> int
    decreases files.len(),
{
    if files.len() == 0 {
        0
    } else if files[0].0 == p {
        0
    } else {
        1 + first_path_index(files.skip(1), p)
    }
}

pub proof fn lemma_upsert_shape(files: Seq<(Seq<char>, Seq<char>)>, p: Seq<char>, c: Seq<char>)
    ensures
        !has_path(files, p) ==> upsert_file(files, p, c) == files.push((p, c)),
        has_path(files, p) ==> 0 <= first_path_index(files, p) < files.len(),
        has_path(files, p) ==> files[first_path_index(files, p)].0 == p,
        has_path(files, p) ==> forall|j: int|
            0 <= j < first_path_index(files, p) ==> (#[trigger] files[j]).0 != p,
        has_path(files, p) ==> upsert_file(files, p, c) == files.update(
            first_path_index(files, p),
            (p, c),
        ),
    decreases files.len(),
{
    if files.len() == 0 {
        assert(!has_path(files, p));
        assert(upsert_file(files, p, c) =~= files.push((p, c)));
    } else if files[0].0 == p {
        assert(has_path(files, p));
        assert(upsert_file(files, p, c) =~= files.update(0, (p, c)));
    } else {
        lemma_upsert_shape(files.skip(1), p, c);
        if has_path(files.skip(1), p) {
            let i = first_path_index(files.skip(1), p);
            assert(files.skip(1)[i] == files[i + 1]);
            assert(has_path(files, p));
            assert forall|j: int|
                0 <= j < i + 1 implies (#[trigger] files[j]).0 != p by {
                if j > 0 {
                    assert(files[j] == files.skip(1)[j - 1]);
                }
            }
            assert(upsert_file(files, p, c) =~= files.update(i + 1, (p, c)));
        } else {
            assert(!has_path(files, p)) by {
                if has_path(files, p) {
                    let i = choose|i: int|
                        0 <= i < files.len() && (#[trigger] files[i]).0 == p;
                    assert(i != 0);
                    assert(files.skip(1)[i - 1] == files[i]);
                }
            }
            assert(upsert_file(files, p, c) =~= files.push((p, c)));
        }
    }
}

/// Replace the content under `path`, or add the file if it is new.
pub fn upsert_file_exec(files: &mut Vec<(String, String)>, path: String, content: String)
    ensures
        pairs_view(final(files)@) == upsert_file(pairs_view(old(files)@), path@, content@),
{
    let ghost fv = pairs_view(files@);
    let mut i: usize = 0;
    while i < files.len()
        invariant
            0 <= i <= files.len(),
            files@ == old(files)@,
            fv == pairs_view(files@),
            fv.len() == files.len(),
            forall|j: int| 0 <= j < i ==> (#[trigger] fv[j]).0 != path@,
        decreases files.len() - i,
    {
        proof {
            assert(fv[i as int] == (files@[i as int].0@, files@[i as int].1@));
        }
        if crate::text::str_eq(files[i].0.as_str(), path.as_str()) {
            proof {
                assert(fv[i as int].0 == path@);
                assert(has_path(fv, path@));
            }
            files.remove(i);
            files.insert(i, (path, content));
            proof {
                lemma_upsert_shape(fv, path@, content@);
                let fi = first_path_index(fv, path@);
                assert(fv[fi].0 == path@);
                assert(fi == i) by {
                    if fi < i {
                        assert(fv[fi].0 != path@);
                    }
                    if fi > i {
                        assert(fv[i as int].0 != path@);
                    }
                }
                assert(pairs_view(files@) =~= fv.update(i as int, (path@, content@)));
            }
            return ;
        }
        i = i + 1;
    }
    files.push((path, content));
    proof {
        lemma_upsert_shape(fv, path@, content@);
        assert(!has_path(fv, path@));
        assert(pairs_view(files@) =~= fv.push((path@, content@)));
    }
}

/// No piece of a split contains a slash.
pub proof fn lemma_split_no_slash(s: Seq<char>, i: int)
    requires
        0 <= i <= s.len(),
    ensures
        forall|p: int, j: int|
            0 <= p < split_from(s, i).len() && 0 <= j < split_from(s, i)[p].len() ==> (
            #[trigger] split_from(s, i)[p][j]) != '/',
    decreases s.len() - i,
{
    lemma_find_slash_bounds(s, i);
    let k = find_slash(s, i);
    if i <= k < s.len() {
        lemma_split_no_slash(s, k + 1);
        assert forall|p: int, j: int|
            0 <= p < split_from(s, i).len() && 0 <= j < split_from(s, i)[p].len() implies (
        #[trigger] split_from(s, i)[p][j]) != '/' by {
            if p == 0 {
                assert(split_from(s, i)[0] == s.subrange(i, k));
            } else {
                assert(split_from(s, i)[p] == split_from(s, k + 1)[p - 1]);
            }
        }
    }
}

fn find_slash_exec(s: &Vec<char>, i: usize) -> (r: usize)
    requires
        i <= s.len(),
    ensures
        r == find_slash(s@, i as int),
        i <= r <= s.len(),
    decreases s.len() - i,
{
    if i < s.len() {
        if s[i] == '/' {
            i
        } else {
            find_slash_exec(s, i + 1)
        }
    } else {
        i
    }
}

pub fn copy_range(s: &Vec<char>, a: usize, b: usize) -> (r: Vec<char>)
    requires
        a <= b <= s.len(),
    ensures
        r@ == s@.subrange(a as int, b as int),
{
    let mut r: Vec<char> = Vec::new();
    let mut k: usize = a;
    while k < b
        invariant
            a <= k <= b <= s.len(),
            r@ =~= s@.subrange(a as int, k as int),
        decreases b - k,
    {
        r.push(s[k]);
        assert(r@ =~= s@.subrange(a as int, k + 1));
        k = k + 1;
    }
    r
}

pub fn split_from_exec(s: &Vec<char>, i: usize) -> (r: Vec<Vec<char>>)
    requires
        i <= s.len(),
    ensures
        r.deep_view() == split_from(s@, i as int),
        r.len() >= 1,
    decreases s.len() - i,
{
    let j = find_slash_exec(s, i);
    if j >= s.len() {
        let seg = copy_range(s, i, s.len());
        let mut r: Vec<Vec<char>> = Vec::new();
        r.push(seg);
        proof {
            assert(r.deep_view() =~~= split_from(s@, i as int));
        }
        r
    } else {
        let seg = copy_range(s, i, j);
        let rest = split_from_exec(s, j + 1);
        let mut r: Vec<Vec<char>> = Vec::new();
        r.push(seg);
        let ghost head: Seq<char> = s@.subrange(i as int, j as int);
        let mut p: usize = 0;
        while p < rest.len()
            invariant
                0 <= p <= rest.len(),
                r@.len() == p + 1,
                r.deep_view() =~~= (seq![head] + rest.deep_view()).take(p + 1),
            decreases rest.len() - p,
        {
            r.push(rest[p].clone());
            proof {
                assert(r.deep_view() =~~= (seq![head] + rest.deep_view()).take(p + 2));
            }
            p = p + 1;
        }
        proof {
            assert(r.deep_view() =~~= seq![head] + rest.deep_view());
        }
        r
    }
}

/// Is this an id the store accepts?
pub fn check_id(id: &str) -> (r: bool)
    ensures
        r == valid_id(id@),
{
    let chars = str_to_chars(id);
    let segs = split_from_exec(&chars, 0);
    let ghost sv = split_slash(id@);
    proof {
        lemma_split_no_slash(id@, 0);
    }
    let mut p: usize = 0;
    while p < segs.len()
        invariant
            0 <= p <= segs.len(),
            segs.deep_view() == sv,
            sv == split_slash(id@),
            segs.len() == sv.len(),
            forall|q: int| 0 <= q < p ==> valid_segment(#[trigger] sv[q]),
            forall|a: int, j: int|
                0 <= a < sv.len() && 0 <= j < sv[a].len() ==> (#[trigger] sv[a][j]) != '/',
        decreases segs.len() - p,
    {
        proof {
            assert(sv[p as int] =~= segs@[p as int]@);
        }
        if segs[p].len() == 0 {
            return false;
        }
        if chars_eq_str(&segs[p], ".") {
            return false;
        }
        if chars_eq_str(&segs[p], "..") {
            return false;
        }
        p = p + 1;
    }
    proof {
        assert(sv[sv.len() - 1] =~= segs@[sv.len() - 1]@);
    }
    if chars_eq_str(&segs[segs.len() - 1], "group") {
        return false;
    }
    if segs.len() == 1 && (crate::text::str_eq(id, "run") || crate::text::str_eq(
        id,
        "system_info",
    )) {
        return false;
    }
    true
}

/// The stage of one run before its atomic commit: the files it will
/// contain, keyed by their path relative to the run directory.  Nothing
/// is visible at the final path until [`RunHandle::commit`] hands the
/// finished file set back; dropping the handle instead loses nothing but
/// the stage.
pub struct RunHandle {
    pub commit_hash: String,
    pub name: String,
    pub files: Vec<(String, String)>,
}

/// What beginning a run yields: a fresh stage, or a refusal because a
/// complete run already sits at the target and `force` was not given.
pub enum BeginRun {
    AlreadyExists,
    Started(RunHandle),
}

impl RunHandle {
    /// The staged files as the specification sees them.
    pub open spec fn files_v(&self) -> Seq<(Seq<char>, Seq<char>)> {
        pairs_view(self.files@)
    }

    /// Begin a run for `(commit_hash, name)`.  Fails fast, before any
    /// subprocess work, when a complete run already exists and `force`
    /// is off; existing data is untouched either way.
    pub fn begin_run(commit_hash: &str, name: &str, exists: bool, force: bool) -> (r: BeginRun)
        ensures
            (exists && !force) <==> r is AlreadyExists,
            r matches BeginRun::Started(h) ==> h.commit_hash@ == commit_hash@ && h.name@ == name@
                && h.files_v() == Seq::<(Seq<char>, Seq<char>)>::empty(),
    {
        if exists && !force {
            BeginRun::AlreadyExists
        } else {
            let h = RunHandle {
                commit_hash: commit_hash.to_owned(),
                name: name.to_owned(),
                files: Vec::new(),
            };
            proof {
                assert(h.files_v() =~= Seq::<(Seq<char>, Seq<char>)>::empty());
            }
            BeginRun::Started(h)
        }
    }

    /// Stage one benchmark result under the path its id names.  An id
    /// the store does not accept is refused and stages nothing.
    pub fn put_result(&mut self, id: &str, payload: &str) -> (stored: bool)
        ensures
            stored == valid_id(id@),
            final(self).commit_hash == old(self).commit_hash,
            final(self).name == old(self).name,
            stored ==> final(self).files_v() == upsert_file(
                old(self).files_v(),
                id_path(id@),
                payload@,
            ),
            !stored ==> final(self).files == old(self).files,
    {
        if !check_id(id) {
            return false;
        }
        let mut pc = str_to_chars(id);
        crate::emit::append_str(&mut pc, ".json");
        let path = chars_to_string(&pc);
        upsert_file_exec(&mut self.files, path, payload.to_owned());
        true
    }

    /// Stage one group record under `<group>/group.json`.  A group name
    /// that is not a usable path segment is refused and stages nothing.
    pub fn put_group(&mut self, group: &GroupComplete) -> (stored: bool)
        ensures
            stored == valid_segment(group.group_name@),
            final(self).commit_hash == old(self).commit_hash,
            final(self).name == old(self).name,
            stored ==> final(self).files_v() == upsert_file(
                old(self).files_v(),
                group_path(group.group_name@),
                group_json_spec(group@),
            ),
            !stored ==> final(self).files == old(self).files,
    {
        let gc = str_to_chars(group.group_name.as_str());
        if gc.len() == 0 {
            return false;
        }
        if chars_eq_str(&gc, ".") || chars_eq_str(&gc, "..") {
            return false;
        }
        let mut k: usize = 0;
        while k < gc.len()
            invariant
                0 <= k <= gc.len(),
                gc@ == group.group_name@,
                forall|j: int| 0 <= j < k ==> gc@[j] != '/',
            decreases gc.len() - k,
        {
            if gc[k] == '/' {
                return false;
            }
            k = k + 1;
        }
        let mut pc = str_to_chars(group.group_name.as_str());
        crate::emit::append_str(&mut pc, "/group.json");
        let path = chars_to_string(&pc);
        let content = group.to_json();
        upsert_file_exec(&mut self.files, path, content);
        true
    }

    /// Commit the run: the manifest joins the stage, and the whole file
    /// set becomes the run directory in one step.
    pub fn commit(self, manifest_text: String) -> (files: Vec<(String, String)>)
        ensures
            pairs_view(files@) == upsert_file(self.files_v(), "run.json"@, manifest_text@),
    {
        let mut files = self.files;
        upsert_file_exec(&mut files, "run.json".to_owned(), manifest_text);
        files
    }

    /// Roll the run back: the stage is discarded whole, and nothing ever
    /// becomes visible at the final path.
    pub fn abort(self) {
    }
}

} // verus!
