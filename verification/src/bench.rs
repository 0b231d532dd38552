//! One benchmark run, from the subprocess's captured output to a
//! committed run directory and an index entry.
//!
//! The run is staged: results and group records accumulate under a
//! [`RunHandle`], and only a successful exit commits the stage, manifest
//! included, in one step.  A failing subprocess discards the stage, so
//! no partial run is ever visible.  A run that already exists is a
//! no-op unless forced.

use vstd::prelude::*;

use crate::common::{
    contains_str, entry_index, has_entry, index_wf, manifest_json, manifest_json_spec,
    record_run_spec, sysinfo_fields_spec, DbManifest, SystemInfo,
};
use crate::emit::pairs_view;
use crate::events::{
    decode_stream, decode_stream_spec, group_json_spec, BenchmarkEvent, BenchmarkEventV,
};
use crate::store::{
    group_path, has_path, id_path, ids_of_paths, lemma_ids_of_upsert, lemma_path_to_id_of_group,
    lemma_path_to_id_of_id, path_to_id, upsert_file, valid_id, valid_segment, BeginRun, RunHandle,
};

verus! {

/// What one event does to the stage: a result file and possibly a new
/// id, or a group record file.  An id or group name the store refuses
/// stages nothing.
pub open spec fn stage_step(
    files: Seq<(Seq<char>, Seq<char>)>,
    ids: Seq<Seq<char>>,
    ev: BenchmarkEventV,
) -> (Seq<(Seq<char>, Seq<char>)>, Seq<Seq<char>>) {
    match ev {
        BenchmarkEventV::BenchmarkComplete(e) => {
            if valid_id(e.id) {
                (
                    upsert_file(files, id_path(e.id), e.payload),
                    if ids.contains(e.id) {
                        ids
                    } else {
                        ids.push(e.id)
                    },
                )
            } else {
                (files, ids)
            }
        },
        BenchmarkEventV::GroupComplete(g) => {
            if valid_segment(g.group_name) {
                (upsert_file(files, group_path(g.group_name), group_json_spec(g)), ids)
            } else {
                (files, ids)
            }
        },
    }
}

/// The stage an event sequence builds: its files and the ids collected,
/// each id once, in order of first completion.
pub open spec fn stage_fold(evs: Seq<BenchmarkEventV>) -> (
    Seq<(Seq<char>, Seq<char>)>,
    Seq<Seq<char>>,
)
    decreases evs.len(),
{
    if evs.len() == 0 {
        (Seq::empty(), Seq::empty())
    } else {
        let (f, ids) = stage_fold(evs.drop_last());
        stage_step(f, ids, evs.last())
    }
}

/// A valid id sits in the extracted ids exactly when its file path sits
/// in the stage.
pub proof fn lemma_ids_membership(files: Seq<(Seq<char>, Seq<char>)>, id: Seq<char>)
    requires
        valid_id(id),
    ensures
        ids_of_paths(files).contains(id) <==> has_path(files, id_path(id)),
    decreases files.len(),
{
    lemma_path_to_id_of_id(id);
    if files.len() == 0 {
    } else {
        lemma_ids_membership(files.skip(1), id);
        let head_ids = (match path_to_id(files[0].0) {
            Some(i) => seq![i],
            None => Seq::<Seq<char>>::empty(),
        });
        assert(ids_of_paths(files) == head_ids + ids_of_paths(files.skip(1)));
        if has_path(files, id_path(id)) {
            let w = choose|i: int| 0 <= i < files.len() && (#[trigger] files[i]).0 == id_path(id);
            if w == 0 {
                assert(path_to_id(files[0].0) == Some(id));
                assert(ids_of_paths(files)[0] == id);
                assert(ids_of_paths(files).contains(id));
            } else {
                assert(files.skip(1)[w - 1] == files[w]);
                assert(has_path(files.skip(1), id_path(id)));
                let k = choose|k: int|
                    0 <= k < ids_of_paths(files.skip(1)).len() && ids_of_paths(files.skip(1))[k]
                        == id;
                assert(ids_of_paths(files)[head_ids.len() + k] == id);
                assert(ids_of_paths(files).contains(id));
            }
        }
        if ids_of_paths(files).contains(id) {
            let k = choose|k: int|
                0 <= k < ids_of_paths(files).len() && ids_of_paths(files)[k] == id;
            if k < head_ids.len() {
                assert(path_to_id(files[0].0) == Some(id));
                // a path that reads back as `id` is `id`'s own path
                assert(ends_json_path(files[0].0, id));
                assert(files[0].0 =~= id_path(id));
                assert(has_path(files, id_path(id)));
            } else {
                assert(ids_of_paths(files.skip(1))[k - head_ids.len()] == id);
                assert(ids_of_paths(files.skip(1)).contains(id));
                let w = choose|i: int|
                    0 <= i < files.skip(1).len() && (#[trigger] files.skip(1)[i]).0 == id_path(id);
                assert(files[w + 1] == files.skip(1)[w]);
                assert(has_path(files, id_path(id)));
            }
        }
    }
}

/// A path whose stem is `id` is `id` with the result suffix.
pub open spec fn ends_json_path(p: Seq<char>, id: Seq<char>) -> bool {
    crate::store::ends_json(p) && p.take(p.len() - 5) == id
}

/// The stage's files always stand for exactly the collected ids.
pub proof fn lemma_stage_ids(evs: Seq<BenchmarkEventV>)
    ensures
        ids_of_paths(stage_fold(evs).0) == stage_fold(evs).1,
    decreases evs.len(),
{
    if evs.len() == 0 {
        reveal_with_fuel(ids_of_paths, 2);
    } else {
        lemma_stage_ids(evs.drop_last());
        let (f, ids) = stage_fold(evs.drop_last());
        match evs.last() {
            BenchmarkEventV::BenchmarkComplete(e) => {
                if valid_id(e.id) {
                    lemma_ids_membership(f, e.id);
                    lemma_ids_of_upsert(f, id_path(e.id), e.payload);
                    lemma_path_to_id_of_id(e.id);
                    if ids.contains(e.id) {
                        assert(has_path(f, id_path(e.id)));
                    } else {
                        assert(!has_path(f, id_path(e.id)));
                        assert(ids_of_paths(upsert_file(f, id_path(e.id), e.payload)) =~= ids.push(
                            e.id,
                        ));
                    }
                }
            },
            BenchmarkEventV::GroupComplete(g) => {
                if valid_segment(g.group_name) {
                    lemma_ids_of_upsert(f, group_path(g.group_name), group_json_spec(g));
                    lemma_path_to_id_of_group(g.group_name);
                    if !has_path(f, group_path(g.group_name)) {
                        assert(ids_of_paths(upsert_file(f, group_path(g.group_name), group_json_spec(g)))
                            =~= ids);
                    }
                }
            },
        }
    }
}

/// Manifest-contents invariant: after a successful run, the manifest's
/// benchmark list, sorted, is exactly the sorted set of benchmark
/// result files present under the run directory.
pub proof fn lemma_manifest_contents(
    h: Seq<char>,
    n: Seq<char>,
    sys: Seq<(Seq<char>, Seq<char>)>,
    lines: Seq<Seq<char>>,
)
    ensures
        ({
            let (f, ids) = stage_fold(decode_stream_spec(lines));
            &&& ids_of_paths(committed_files_spec(h, n, sys, lines)) == ids
            &&& crate::text::sort_spec(ids_of_paths(committed_files_spec(h, n, sys, lines)))
                == crate::text::sort_spec(ids)
        }),
{
    let evs = decode_stream_spec(lines);
    let (f, ids) = stage_fold(evs);
    lemma_stage_ids(evs);
    let m = manifest_json_spec(h, n, sys, ids);
    lemma_ids_of_upsert(f, "run.json"@, m);
    crate::store::lemma_path_to_id_run_json();
    if !has_path(f, "run.json"@) {
        assert(ids_of_paths(upsert_file(f, "run.json"@, m)) =~= ids_of_paths(f));
    }
}

/// How a single run ends when its stage is not refused outright.
pub enum RunOutcome {
    /// A complete run already existed and `force` was off; nothing was
    /// spawned and nothing changed.
    Skipped,
    /// The run committed: the run directory's whole file set, and the
    /// benchmark ids in order of first completion.
    Completed { files: Vec<(String, String)>, bench_ids: Vec<String> },
}

pub enum BenchError {
    /// The subprocess exited with a failure; the stage was discarded.
    SubprocessFailed,
}

/// The file set a successful run leaves at its final path.
pub open spec fn committed_files_spec(
    h: Seq<char>,
    n: Seq<char>,
    sys: Seq<(Seq<char>, Seq<char>)>,
    lines: Seq<Seq<char>>,
) -> Seq<(Seq<char>, Seq<char>)> {
    let (f, ids) = stage_fold(decode_stream_spec(lines));
    upsert_file(f, "run.json"@, manifest_json_spec(h, n, sys, ids))
}

/// Drive one run from its captured output: stage every recognized
/// event, then commit with the manifest on success, or discard the
/// stage whole on failure.  An existing run without `force` is a
/// no-op.
pub fn run(
    commit_hash: &str,
    name: &str,
    force: bool,
    already_exists: bool,
    lines: &Vec<String>,
    exit_ok: bool,
    system: &SystemInfo,
) -> (r: Result<RunOutcome, BenchError>)
    ensures
        (already_exists && !force) ==> (r matches Ok(o) && o is Skipped),
        (!(already_exists && !force) && !exit_ok) ==> (r matches Err(e) && e
            is SubprocessFailed),
        (!(already_exists && !force) && exit_ok) ==> (r matches Ok(o) && o matches
            RunOutcome::Completed { files, bench_ids } && pairs_view(files@)
            == committed_files_spec(
            commit_hash@,
            name@,
            sysinfo_fields_spec(system@),
            lines.deep_view(),
        ) && bench_ids.deep_view() == stage_fold(decode_stream_spec(lines.deep_view())).1),
{
    let mut handle = match RunHandle::begin_run(commit_hash, name, already_exists, force) {
        BeginRun::AlreadyExists => {
            return Ok(RunOutcome::Skipped);
        },
        BeginRun::Started(h) => h,
    };
    let events = decode_stream(lines);
    let ghost evs: Seq<BenchmarkEventV> = decode_stream_spec(lines.deep_view());
    let mut bench_ids: Vec<String> = Vec::new();
    let mut i: usize = 0;
    proof {
        assert(evs.take(0) =~= Seq::<BenchmarkEventV>::empty());
        assert(handle.files_v() == stage_fold(evs.take(0)).0);
        assert(bench_ids.deep_view() =~= stage_fold(evs.take(0)).1);
    }
    while i < events.len()
        invariant
            0 <= i <= events.len(),
            events.deep_view() == evs,
            evs.len() == events.len(),
            handle.files_v() == stage_fold(evs.take(i as int)).0,
            bench_ids.deep_view() == stage_fold(evs.take(i as int)).1,
        decreases events.len() - i,
    {
        proof {
            assert(evs.take(i + 1).drop_last() =~= evs.take(i as int));
            assert(evs.take(i + 1).last() == evs[i as int]);
            assert(evs[i as int] == events@[i as int]@);
        }
        match &events[i] {
            BenchmarkEvent::BenchmarkComplete(e) => {
                let stored = handle.put_result(e.id.as_str(), e.payload.as_str());
                if stored {
                    if !contains_str(&bench_ids, e.id.as_str()) {
                        bench_ids.push(e.id.clone());
                        proof {
                            assert(bench_ids.deep_view() =~= stage_fold(evs.take(i + 1)).1);
                        }
                    }
                }
            },
            BenchmarkEvent::GroupComplete(g) => {
                let _stored = handle.put_group(g);
            },
        }
        i = i + 1;
    }
    proof {
        assert(evs.take(evs.len() as int) =~= evs);
    }
    if !exit_ok {
        handle.abort();
        return Err(BenchError::SubprocessFailed);
    }
    let sys_fields = system.to_fields();
    let manifest_text = manifest_json(commit_hash, name, &sys_fields, &bench_ids);
    let files = handle.commit(manifest_text);
    Ok(RunOutcome::Completed { files, bench_ids })
}

/// Add `run_name` to `hash`'s runs in the global index, if it is not
/// recorded yet; recording an already-recorded pair changes nothing.
pub fn update_db_manifest(manifest: &mut DbManifest, hash: &str, run_name: &str)
    ensures
        final(manifest)@ == record_run_spec(old(manifest)@, hash@, run_name@),
{
    let ghost bv = manifest@;
    let mut i: usize = 0;
    while i < manifest.benches.len()
        invariant
            0 <= i <= manifest.benches.len(),
            manifest.benches@ == old(manifest).benches@,
            bv == manifest@,
            bv.len() == manifest.benches.len(),
            forall|j: int| 0 <= j < i ==> (#[trigger] bv[j]).0 != hash@,
        decreases manifest.benches.len() - i,
    {
        proof {
            let ghost ii = i as int;
            assert(bv[ii] == (manifest.benches@[ii].0@, manifest.benches@[ii].1.deep_view()));
        }
        if crate::text::str_eq(manifest.benches[i].0.as_str(), hash) {
            proof {
                assert(has_entry(bv, hash@));
                crate::common::lemma_entry_index(bv, hash@);
                let fi = entry_index(bv, hash@);
                assert(fi == i) by {
                    if fi < i {
                        assert(bv[fi].0 != hash@);
                    }
                    if fi > i {
                        assert(bv[i as int].0 != hash@);
                    }
                }
            }
            if contains_str(&manifest.benches[i].1, run_name) {
                proof {
                    assert(final(manifest)@ == record_run_spec(old(manifest)@, hash@, run_name@));
                }
                return ;
            }
            let (h0, mut ns) = manifest.benches.remove(i);
            ns.push(run_name.to_owned());
            manifest.benches.insert(i, (h0, ns));
            proof {
                assert(manifest@ =~~= bv.update(
                    i as int,
                    (hash@, bv[i as int].1.push(run_name@)),
                ));
            }
            return ;
        }
        i = i + 1;
    }
    manifest.benches.push((hash.to_owned(), {
        let mut ns: Vec<String> = Vec::new();
        ns.push(run_name.to_owned());
        ns
    }));
    proof {
        assert(!has_entry(bv, hash@));
        assert(manifest@ =~~= bv.push((hash@, seq![run_name@])));
    }
}

/// One completed run directory, at `<commit_hash>/<name>` under the
/// database root.
pub struct RunDir {
    pub commit_hash: String,
    pub name: String,
    pub files: Vec<(String, String)>,
}

pub struct RunDirV {
    pub commit_hash: Seq<char>,
    pub name: Seq<char>,
    pub files: Seq<(Seq<char>, Seq<char>)>,
}

impl View for RunDir {
    type V = RunDirV;

    open spec fn view(&self) -> RunDirV {
        RunDirV {
            commit_hash: self.commit_hash@,
            name: self.name@,
            files: pairs_view(self.files@),
        }
    }
}

/// The visible state of the database: the completed runs and the global
/// index file.
pub struct Db {
    pub runs: Vec<RunDir>,
    pub index: DbManifest,
}

pub struct DbV {
    pub runs: Seq<RunDirV>,
    pub index: Seq<(Seq<char>, Seq<Seq<char>>)>,
}

impl View for Db {
    type V = DbV;

    open spec fn view(&self) -> DbV {
        DbV { runs: Seq::new(self.runs@.len(), |i: int| self.runs@[i]@), index: self.index@ }
    }
}

/// Whether a complete run is visible for `(h, n)`.
pub open spec fn has_run_spec(runs: Seq<RunDirV>, h: Seq<char>, n: Seq<char>) -> bool {
    exists|i: int|
        0 <= i < runs.len() && (#[trigger] runs[i]).commit_hash == h && runs[i].name == n
}

/// Where the first run directory for `(h, n)` sits.
pub open spec fn run_index(runs: Seq<RunDirV>, h: Seq<char>, n: Seq<char>) -> int
    decreases runs.len(),
{
    if runs.len() == 0 {
        0
    } else if runs[0].commit_hash == h && runs[0].name == n {
        0
    } else {
        1 + run_index(runs.skip(1), h, n)
    }
}

pub proof fn lemma_run_index(runs: Seq<RunDirV>, h: Seq<char>, n: Seq<char>)
    requires
        has_run_spec(runs, h, n),
    ensures
        0 <= run_index(runs, h, n) < runs.len(),
        runs[run_index(runs, h, n)].commit_hash == h,
        runs[run_index(runs, h, n)].name == n,
        forall|j: int|
            0 <= j < run_index(runs, h, n) ==> !((#[trigger] runs[j]).commit_hash == h && runs[j].name
                == n),
    decreases runs.len(),
{
    if runs.len() > 0 && !(runs[0].commit_hash == h && runs[0].name == n) {
        assert(has_run_spec(runs.skip(1), h, n)) by {
            let i = choose|i: int|
                0 <= i < runs.len() && (#[trigger] runs[i]).commit_hash == h && runs[i].name == n;
            assert(runs.skip(1)[i - 1] == runs[i]);
        }
        lemma_run_index(runs.skip(1), h, n);
        assert forall|j: int|
            0 <= j < run_index(runs, h, n) implies !((#[trigger] runs[j]).commit_hash == h
            && runs[j].name == n) by {
            if j > 0 {
                assert(runs[j] == runs.skip(1)[j - 1]);
            }
        }
    }
}

/// Replace the run directory for its `(commit, name)` pair, or add it.
pub open spec fn upsert_run(runs: Seq<RunDirV>, rd: RunDirV) -> Seq<RunDirV> {
    if has_run_spec(runs, rd.commit_hash, rd.name) {
        runs.update(run_index(runs, rd.commit_hash, rd.name), rd)
    } else {
        runs.push(rd)
    }
}

impl Db {
    /// An empty database.
    pub fn new() -> (db: Db)
        ensures
            db@.runs == Seq::<RunDirV>::empty(),
            db@.index == Seq::<(Seq<char>, Seq<Seq<char>>)>::empty(),
            index_wf(db@.index),
    {
        let db = Db { runs: Vec::new(), index: DbManifest::new() };
        proof {
            assert(db@.runs =~= Seq::<RunDirV>::empty());
        }
        db
    }

    /// Whether a complete run is visible for `(h, n)`.
    pub fn has_run(&self, h: &str, n: &str) -> (r: bool)
        ensures
            r == has_run_spec(self@.runs, h@, n@),
    {
        let mut i: usize = 0;
        while i < self.runs.len()
            invariant
                0 <= i <= self.runs.len(),
                self@.runs.len() == self.runs.len(),
                forall|j: int|
                    0 <= j < i ==> !((#[trigger] self@.runs[j]).commit_hash == h@
                        && self@.runs[j].name == n@),
            decreases self.runs.len() - i,
        {
            proof {
                assert(self@.runs[i as int] == self.runs@[i as int]@);
            }
            if crate::text::str_eq(self.runs[i].commit_hash.as_str(), h) && crate::text::str_eq(
                self.runs[i].name.as_str(),
                n,
            ) {
                return true;
            }
            i = i + 1;
        }
        false
    }
}

fn upsert_run_exec(runs: &mut Vec<RunDir>, rd: RunDir)
    ensures
        Seq::new(final(runs)@.len(), |i: int| final(runs)@[i]@) == upsert_run(
            Seq::new(old(runs)@.len(), |i: int| old(runs)@[i]@),
            rd@,
        ),
{
    let ghost rv: Seq<RunDirV> = Seq::new(runs@.len(), |i: int| runs@[i]@);
    let ghost rdv: RunDirV = rd@;
    let mut i: usize = 0;
    while i < runs.len()
        invariant
            0 <= i <= runs.len(),
            runs@ == old(runs)@,
            rv == Seq::new(runs@.len(), |i: int| runs@[i]@),
            rv.len() == runs.len(),
            rdv == rd@,
            forall|j: int|
                0 <= j < i ==> !((#[trigger] rv[j]).commit_hash == rdv.commit_hash && rv[j].name
                    == rdv.name),
        decreases runs.len() - i,
    {
        proof {
            assert(rv[i as int] == runs@[i as int]@);
        }
        if crate::text::str_eq(runs[i].commit_hash.as_str(), rd.commit_hash.as_str())
            && crate::text::str_eq(runs[i].name.as_str(), rd.name.as_str()) {
            proof {
                assert(has_run_spec(rv, rdv.commit_hash, rdv.name));
            }
            runs.remove(i);
            runs.insert(i, rd);
            proof {
                lemma_run_index(rv, rdv.commit_hash, rdv.name);
                let fi = run_index(rv, rdv.commit_hash, rdv.name);
                assert(fi == i) by {
                    if fi < i {
                        assert(!(rv[fi].commit_hash == rdv.commit_hash && rv[fi].name
                            == rdv.name));
                    }
                    if fi > i {
                        assert(!(rv[i as int].commit_hash == rdv.commit_hash && rv[i as int].name
                            == rdv.name));
                    }
                }
                assert(Seq::new(runs@.len(), |k: int| runs@[k]@) =~= rv.update(i as int, rdv));
            }
            return ;
        }
        i = i + 1;
    }
    runs.push(rd);
    proof {
        assert(!has_run_spec(rv, rdv.commit_hash, rdv.name));
        assert(Seq::new(runs@.len(), |k: int| runs@[k]@) =~= rv.push(rdv));
    }
}

/// Drive one run against the database: decide from the visible state,
/// stage and commit (or skip, or roll back), and record a success in
/// the index.  Returns the committed benchmark ids, or nothing for a
/// safe skip.
pub fn run_on_db(
    db: &mut Db,
    commit_hash: &str,
    name: &str,
    force: bool,
    lines: &Vec<String>,
    exit_ok: bool,
    system: &SystemInfo,
) -> (r: Result<Option<Vec<String>>, BenchError>)
    ensures
        (has_run_spec(old(db)@.runs, commit_hash@, name@) && !force) ==> (r matches Ok(o) && o
            is None && final(db)@ == old(db)@),
        (!(has_run_spec(old(db)@.runs, commit_hash@, name@) && !force) && !exit_ok) ==> (r
            matches Err(e) && e is SubprocessFailed && final(db)@ == old(db)@),
        (!(has_run_spec(old(db)@.runs, commit_hash@, name@) && !force) && exit_ok) ==> (r
            matches Ok(o) && o matches Some(ids) && ids.deep_view() == stage_fold(
            decode_stream_spec(lines.deep_view()),
        ).1 && final(db)@.runs == upsert_run(
            old(db)@.runs,
            RunDirV {
                commit_hash: commit_hash@,
                name: name@,
                files: committed_files_spec(
                    commit_hash@,
                    name@,
                    sysinfo_fields_spec(system@),
                    lines.deep_view(),
                ),
            },
        ) && final(db)@.index == record_run_spec(old(db)@.index, commit_hash@, name@)),
        index_wf(old(db)@.index) ==> index_wf(final(db)@.index),
{
    let exists = db.has_run(commit_hash, name);
    match run(commit_hash, name, force, exists, lines, exit_ok, system) {
        Ok(RunOutcome::Skipped) => Ok(None),
        Err(e) => Err(e),
        Ok(RunOutcome::Completed { files, bench_ids }) => {
            let rd = RunDir {
                commit_hash: commit_hash.to_owned(),
                name: name.to_owned(),
                files,
            };
            upsert_run_exec(&mut db.runs, rd);
            update_db_manifest(&mut db.index, commit_hash, name);
            proof {
                if index_wf(old(db)@.index) {
                    lemma_index_idempotence(old(db)@.index, commit_hash@, name@);
                }
            }
            Ok(Some(bench_ids))
        },
    }
}

/// Recording a pair twice is the same as recording it once, and a
/// well-formed index keeps mentioning the name exactly once.
pub proof fn lemma_index_idempotence(
    bs: Seq<(Seq<char>, Seq<Seq<char>>)>,
    h: Seq<char>,
    n: Seq<char>,
)
    requires
        index_wf(bs),
    ensures
        record_run_spec(record_run_spec(bs, h, n), h, n) == record_run_spec(bs, h, n),
        index_wf(record_run_spec(bs, h, n)),
        crate::common::contains_run(record_run_spec(bs, h, n), h, n),
{
    let b1 = record_run_spec(bs, h, n);
    if !has_entry(bs, h) {
        assert(b1 == bs.push((h, seq![n])));
        assert(b1[bs.len() as int].0 == h);
        assert(has_entry(b1, h));
        crate::common::lemma_entry_index(b1, h);
        let i1 = entry_index(b1, h);
        assert(i1 == bs.len()) by {
            if i1 < bs.len() {
                assert(b1[i1] == bs[i1]);
                assert(has_entry(bs, h));
            }
        }
        assert(b1[i1].1 == seq![n]);
        assert(b1[i1].1.contains(n)) by {
            assert(b1[i1].1[0] == n);
        }
        assert(record_run_spec(b1, h, n) == b1);
        assert(index_wf(b1)) by {
            assert forall|i: int, j: int|
                0 <= i < j < b1.len() implies (#[trigger] b1[i]).0 != (#[trigger] b1[j]).0 by {
                if j == bs.len() {
                    if b1[i].0 == h {
                        assert(bs[i].0 == h);
                        assert(has_entry(bs, h));
                    }
                }
            }
            assert forall|i: int|
                0 <= i < b1.len() implies crate::common::distinct_strs((#[trigger] b1[i]).1) by {
                if i < bs.len() {
                    assert(b1[i] == bs[i]);
                }
            }
        }
        assert(crate::common::contains_run(b1, h, n));
    } else {
        crate::common::lemma_entry_index(bs, h);
        let i = entry_index(bs, h);
        if bs[i].1.contains(n) {
            assert(b1 == bs);
            assert(crate::common::contains_run(b1, h, n));
        } else {
            assert(b1 == bs.update(i, (h, bs[i].1.push(n))));
            assert(b1[i].0 == h);
            assert(has_entry(b1, h));
            crate::common::lemma_entry_index(b1, h);
            let i1 = entry_index(b1, h);
            assert(i1 == i) by {
                if i1 < i {
                    assert(b1[i1] == bs[i1]);
                    assert(bs[i1].0 != h);
                }
                if i1 > i {
                    assert(b1[i].0 != h);
                }
            }
            assert(b1[i].1 == bs[i].1.push(n));
            assert(b1[i].1.contains(n)) by {
                assert(b1[i].1[bs[i].1.len() as int] == n);
            }
            assert(record_run_spec(b1, h, n) == b1);
            assert(index_wf(b1)) by {
                assert forall|a: int, b: int|
                    0 <= a < b < b1.len() implies (#[trigger] b1[a]).0 != (#[trigger] b1[b]).0 by {
                    assert(b1[a].0 == bs[a].0);
                    assert(b1[b].0 == bs[b].0);
                }
                assert forall|a: int|
                    0 <= a < b1.len() implies crate::common::distinct_strs(
                    (#[trigger] b1[a]).1,
                ) by {
                    if a != i {
                        assert(b1[a] == bs[a]);
                    } else {
                        let ns = bs[i].1;
                        assert(crate::common::distinct_strs(ns));
                        assert forall|p: int, q: int|
                            0 <= p < q < ns.push(n).len() implies ns.push(n)[p] != ns.push(
                            n,
                        )[q] by {
                            if q < ns.len() {
                                assert(ns.push(n)[p] == ns[p]);
                                assert(ns.push(n)[q] == ns[q]);
                            } else {
                                assert(ns.push(n)[q] == n);
                                assert(ns.push(n)[p] == ns[p]);
                                assert(!ns.contains(n));
                                if ns[p] == n {
                                    assert(ns.contains(n));
                                }
                            }
                        }
                    }
                }
            }
            assert(crate::common::contains_run(b1, h, n));
        }
    }
}

} // verus!
