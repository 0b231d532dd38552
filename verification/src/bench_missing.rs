//! Backfilling history: which commits of the tracked branch still lack
//! a run for a given machine name, and in what order to attempt them.
//!
//! The log arrives newest first; the plan runs oldest first, so partial
//! progress on a long batch still leaves a contiguous historical
//! prefix.  Per-commit failures are the driver's to log and skip; the
//! plan only decides.

use vstd::prelude::*;

use crate::emit::pairs_view;
use crate::text::{chars_to_string, str_to_chars};
use crate::vcs::is_pr_merge_spec;

verus! {

/// First newline at or after `i`, or the length if there is none.
pub open spec fn find_nl(s: Seq<char>, i: int) -> int
    decreases s.len() - i,
{
    if 0 <= i < s.len() {
        if s[i] == '\n' {
            i
        } else {
            find_nl(s, i + 1)
        }
    } else {
        i
    }
}

fn find_nl_exec(s: &Vec<char>, i: usize) -> (r: usize)
    requires
        i <= s.len(),
    ensures
        r == find_nl(s@, i as int),
        i <= r <= s.len(),
    decreases s.len() - i,
{
    if i < s.len() {
        if s[i] == '\n' {
            i
        } else {
            find_nl_exec(s, i + 1)
        }
    } else {
        i
    }
}

/// First space at or after `i`, or the length if there is none.
pub open spec fn find_space(s: Seq<char>, i: int) -> int
    decreases s.len() - i,
{
    if 0 <= i < s.len() {
        if s[i] == ' ' {
            i
        } else {
            find_space(s, i + 1)
        }
    } else {
        i
    }
}

fn find_space_exec(s: &Vec<char>, i: usize) -> (r: usize)
    requires
        i <= s.len(),
    ensures
        r == find_space(s@, i as int),
        i <= r <= s.len(),
    decreases s.len() - i,
{
    if i < s.len() {
        if s[i] == ' ' {
            i
        } else {
            find_space_exec(s, i + 1)
        }
    } else {
        i
    }
}

/// The line without a trailing carriage return.
pub open spec fn strip_cr(line: Seq<char>) -> Seq<char> {
    if line.len() > 0 && line[line.len() - 1] == '\r' {
        line.drop_last()
    } else {
        line
    }
}

/// One log line as `(hash, message)`: the text before the first space,
/// and the text after it.  A line without a space carries no entry.
pub open spec fn log_entry(line: Seq<char>) -> Option<(Seq<char>, Seq<char>)> {
    let l = strip_cr(line);
    let sp = find_space(l, 0);
    if 0 <= sp < l.len() {
        Some((l.take(sp), l.skip(sp + 1)))
    } else {
        None
    }
}

fn log_entry_exec(line: &Vec<char>) -> (r: Option<(String, String)>)
    ensures
        match r {
            Some((h, m)) => log_entry(line@) == Some((h@, m@)),
            None => log_entry(line@) is None,
        },
{
    let end: usize = if line.len() > 0 && line[line.len() - 1] == '\r' {
        line.len() - 1
    } else {
        line.len()
    };
    let ghost l = strip_cr(line@);
    proof {
        assert(l =~= line@.subrange(0, end as int));
    }
    let stripped = crate::store::copy_range(line, 0, end);
    let sp = find_space_exec(&stripped, 0);
    if sp >= stripped.len() {
        return None;
    }
    let hash = crate::store::copy_range(&stripped, 0, sp);
    let msg = crate::store::copy_range(&stripped, sp + 1, stripped.len());
    proof {
        assert(hash@ =~= l.take(sp as int));
        assert(msg@ =~= l.skip(sp as int + 1));
    }
    Some((chars_to_string(&hash), chars_to_string(&msg)))
}

/// The entries of the whole log text, line by line.
pub open spec fn entries_from(s: Seq<char>, i: int) -> Seq<(Seq<char>, Seq<char>)>
    decreases s.len() - i,
{
    if i < 0 || i >= s.len() {
        Seq::empty()
    } else {
        let j = find_nl(s, i);
        if j < i {
            Seq::empty()
        } else if j >= s.len() {
            match log_entry(s.subrange(i, s.len() as int)) {
                Some(e) => seq![e],
                None => Seq::empty(),
            }
        } else {
            (match log_entry(s.subrange(i, j)) {
                Some(e) => seq![e],
                None => Seq::empty(),
            }) + entries_from(s, j + 1)
        }
    }
}

/// What `log --oneline --format="%H %s"` output means: one `(hash,
/// message)` entry per line that has both.
pub open spec fn parse_log_spec(s: Seq<char>) -> Seq<(Seq<char>, Seq<char>)> {
    entries_from(s, 0)
}

/// Read the whole log text into `(hash, message)` entries.
pub fn parse_log(log: &str) -> (r: Vec<(String, String)>)
    ensures
        pairs_view(r@) == parse_log_spec(log@),
{
    let s = str_to_chars(log);
    let mut acc: Vec<(String, String)> = Vec::new();
    let mut i: usize = 0;
    proof {
        assert(parse_log_spec(log@) =~= pairs_view(acc@) + entries_from(s@, 0));
    }
    while i < s.len()
        invariant
            0 <= i <= s.len() + 1,
            s@ == log@,
            parse_log_spec(log@) == pairs_view(acc@) + entries_from(s@, i as int),
        decreases s.len() - i,
    {
        let j = find_nl_exec(&s, i);
        let line = crate::store::copy_range(&s, i, j);
        let ghost before = pairs_view(acc@);
        let entry = log_entry_exec(&line);
        match entry {
            Some((h, m)) => {
                acc.push((h, m));
                proof {
                    assert(pairs_view(acc@) =~= before + seq![(h@, m@)]);
                }
            },
            None => {},
        }
        if j >= s.len() {
            proof {
                assert(line@ =~= s@.subrange(i as int, s@.len() as int));
                assert(entries_from(s@, i as int) == (match log_entry(line@) {
                    Some(e) => seq![e],
                    None => Seq::<(Seq<char>, Seq<char>)>::empty(),
                }));
                assert(entries_from(s@, s@.len() as int) =~= Seq::<(Seq<char>, Seq<char>)>::empty());
                assert(parse_log_spec(log@) =~= pairs_view(acc@) + entries_from(
                    s@,
                    s@.len() as int,
                ));
            }
            i = s.len();
        } else {
            proof {
                assert(line@ =~= s@.subrange(i as int, j as int));
                assert(entries_from(s@, i as int) == (match log_entry(line@) {
                    Some(e) => seq![e],
                    None => Seq::<(Seq<char>, Seq<char>)>::empty(),
                }) + entries_from(s@, j + 1));
                assert(parse_log_spec(log@) =~= pairs_view(acc@) + entries_from(s@, j + 1));
            }
            i = j + 1;
        }
    }
    proof {
        assert(entries_from(s@, i as int) =~= Seq::<(Seq<char>, Seq<char>)>::empty());
        assert(parse_log_spec(log@) =~= pairs_view(acc@));
    }
    acc
}

/// The hashes of the entries whose message has the merged-pull-request
/// shape, log order kept.
pub open spec fn pr_hashes(entries: Seq<(Seq<char>, Seq<char>)>) -> Seq<Seq<char>>
    decreases entries.len(),
{
    if entries.len() == 0 {
        Seq::empty()
    } else {
        (if is_pr_merge_spec(entries[0].1) {
            seq![entries[0].0]
        } else {
            Seq::empty()
        }) + pr_hashes(entries.skip(1))
    }
}

proof fn lemma_pr_hashes_snoc(entries: Seq<(Seq<char>, Seq<char>)>, e: (Seq<char>, Seq<char>))
    ensures
        pr_hashes(entries.push(e)) == pr_hashes(entries) + (if is_pr_merge_spec(e.1) {
            seq![e.0]
        } else {
            Seq::empty()
        }),
    decreases entries.len(),
{
    if entries.len() == 0 {
        reveal_with_fuel(pr_hashes, 3);
        assert(entries.push(e)[0] == e);
        assert(entries.push(e).skip(1) =~= Seq::<(Seq<char>, Seq<char>)>::empty());
        assert(pr_hashes(entries.push(e)) =~= pr_hashes(entries) + (if is_pr_merge_spec(e.1) {
            seq![e.0]
        } else {
            Seq::empty()
        }));
    } else {
        lemma_pr_hashes_snoc(entries.skip(1), e);
        assert(entries.push(e).skip(1) =~= entries.skip(1).push(e));
        assert(entries.push(e)[0] == entries[0]);
        assert(pr_hashes(entries.push(e)) =~= pr_hashes(entries) + (if is_pr_merge_spec(e.1) {
            seq![e.0]
        } else {
            Seq::empty()
        }));
    }
}

/// Keep the hashes whose message has the merged-pull-request shape.
pub fn filter_pr_commits(entries: &Vec<(String, String)>) -> (r: Vec<String>)
    ensures
        r.deep_view() == pr_hashes(pairs_view(entries@)),
{
    let ghost ev = pairs_view(entries@);
    let mut r: Vec<String> = Vec::new();
    let mut i: usize = 0;
    proof {
        assert(ev.take(0) =~= Seq::<(Seq<char>, Seq<char>)>::empty());
        assert(r.deep_view() =~= pr_hashes(ev.take(0)));
    }
    while i < entries.len()
        invariant
            0 <= i <= entries.len(),
            ev == pairs_view(entries@),
            ev.len() == entries.len(),
            r.deep_view() == pr_hashes(ev.take(i as int)),
        decreases entries.len() - i,
    {
        proof {
            let ghost ii = i as int;
            assert(ev[ii] == (entries@[ii].0@, entries@[ii].1@));
            lemma_pr_hashes_snoc(ev.take(ii), ev[ii]);
            assert(ev.take(ii).push(ev[ii]) =~= ev.take(ii + 1));
        }
        if crate::vcs::is_pr_merge_message(entries[i].1.as_str()) {
            r.push(entries[i].0.clone());
            proof {
                assert(r.deep_view() =~= pr_hashes(ev.take(i + 1)));
            }
        } else {
            proof {
                assert(r.deep_view() =~= pr_hashes(ev.take(i + 1)));
            }
        }
        i = i + 1;
    }
    proof {
        assert(ev.take(ev.len() as int) =~= ev);
    }
    r
}

/// The commits to benchmark, oldest first: from a newest-first list,
/// those not yet covered — or all of them under `force`.
pub open spec fn missing_spec(
    cs: Seq<Seq<char>>,
    have: Seq<Seq<char>>,
    force: bool,
) -> Seq<Seq<char>>
    decreases cs.len(),
{
    if cs.len() == 0 {
        Seq::empty()
    } else {
        missing_spec(cs.skip(1), have, force) + (if force || !have.contains(cs[0]) {
            seq![cs[0]]
        } else {
            Seq::empty()
        })
    }
}

/// Compute the missing set: `commits` newest first, `existing` the
/// commits that already have a complete run for the machine name.  The
/// result is oldest first.
pub fn compute_missing(commits: &Vec<String>, existing: &Vec<String>, force: bool) -> (r: Vec<
    String,
>)
    ensures
        r.deep_view() == missing_spec(commits.deep_view(), existing.deep_view(), force),
{
    let ghost cv: Seq<Seq<char>> = commits.deep_view();
    let ghost hv: Seq<Seq<char>> = existing.deep_view();
    let mut r: Vec<String> = Vec::new();
    let mut i: usize = commits.len();
    proof {
        assert(cv.skip(i as int) =~= Seq::<Seq<char>>::empty());
        assert(r.deep_view() =~= missing_spec(cv.skip(i as int), hv, force));
    }
    while i > 0
        invariant
            0 <= i <= commits.len(),
            cv == commits.deep_view(),
            hv == existing.deep_view(),
            cv.len() == commits.len(),
            r.deep_view() == missing_spec(cv.skip(i as int), hv, force),
        decreases i,
    {
        i = i - 1;
        proof {
            assert(cv.skip(i as int)[0] == cv[i as int]);
            assert(cv.skip(i as int).skip(1) =~= cv.skip(i as int + 1));
            assert(cv[i as int] == commits@[i as int]@);
        }
        let ghost before = r.deep_view();
        if force || !crate::common::contains_str(existing, commits[i].as_str()) {
            r.push(commits[i].clone());
            proof {
                assert(r.deep_view() =~= before + seq![cv[i as int]]);
            }
        } else {
            proof {
                assert(r.deep_view() =~= before + Seq::<Seq<char>>::empty());
            }
        }
    }
    proof {
        assert(cv.skip(0) =~= cv);
    }
    r
}

/// Backfill completeness: a commit is planned exactly when it is in
/// the list and either uncovered or forced; under `force` the plan is
/// the whole list, oldest first.
pub proof fn lemma_backfill_completeness(cs: Seq<Seq<char>>, have: Seq<Seq<char>>, force: bool)
    ensures
        forall|x: Seq<char>|
            #[trigger] missing_spec(cs, have, force).contains(x) <==> (cs.contains(x) && (force
                || !have.contains(x))),
        force ==> missing_spec(cs, have, force) == cs.reverse(),
    decreases cs.len(),
{
    if cs.len() == 0 {
        assert forall|x: Seq<char>|
            #[trigger] missing_spec(cs, have, force).contains(x) <==> (cs.contains(x) && (force
                || !have.contains(x))) by {
            if cs.contains(x) {
                let i = choose|i: int| 0 <= i < cs.len() && cs[i] == x;
            }
        }
        if force {
            assert(missing_spec(cs, have, force) =~= cs.reverse());
        }
    } else {
        lemma_backfill_completeness(cs.skip(1), have, force);
        let rest = missing_spec(cs.skip(1), have, force);
        let m = missing_spec(cs, have, force);
        assert forall|x: Seq<char>|
            #[trigger] m.contains(x) <==> (cs.contains(x) && (force || !have.contains(x))) by {
            if m.contains(x) {
                let i = choose|i: int| 0 <= i < m.len() && m[i] == x;
                if i < rest.len() {
                    assert(rest[i] == x);
                    assert(rest.contains(x));
                    assert(cs.skip(1).contains(x));
                    let w = choose|w: int| 0 <= w < cs.skip(1).len() && cs.skip(1)[w] == x;
                    assert(cs[w + 1] == x);
                    assert(cs.contains(x));
                } else {
                    assert(m[i] == cs[0]);
                    assert(cs.contains(x)) by {
                        assert(cs[0] == x);
                    }
                }
            }
            if cs.contains(x) && (force || !have.contains(x)) {
                let i = choose|i: int| 0 <= i < cs.len() && cs[i] == x;
                if i == 0 {
                    assert(m[m.len() - 1] == x);
                    assert(m.contains(x));
                } else {
                    assert(cs.skip(1)[i - 1] == x);
                    assert(cs.skip(1).contains(x));
                    assert(rest.contains(x));
                    let w = choose|w: int| 0 <= w < rest.len() && rest[w] == x;
                    assert(m[w] == x);
                    assert(m.contains(x));
                }
            }
        }
        if force {
            assert(m =~= cs.reverse());
        }
    }
}

/// What a backfill pass should do, decided from the log, the covered
/// commits, and the flags.
pub enum BackfillPlan {
    /// Every eligible commit is covered already.
    NothingToDo,
    /// Report these commits, oldest first, and mutate nothing.
    DryRun(Vec<String>),
    /// Benchmark these commits, oldest first, checking each out in
    /// turn; afterwards check out `restore_to`, the last one attempted.
    Execute { commits: Vec<String>, restore_to: String },
}

/// Decide a backfill pass: filter the newest-first log down to
/// merged-pull-request commits, diff against the covered commits, and
/// order the work oldest first.
pub fn plan(log: &str, existing: &Vec<String>, force: bool, dry_run: bool) -> (r: BackfillPlan)
    ensures
        ({
            let miss = missing_spec(
                pr_hashes(parse_log_spec(log@)),
                existing.deep_view(),
                force,
            );
            &&& (miss.len() == 0 <==> r is NothingToDo)
            &&& (r matches BackfillPlan::DryRun(v) ==> dry_run && v.deep_view() == miss)
            &&& (r matches BackfillPlan::Execute { commits, restore_to } ==> !dry_run
                && commits.deep_view() == miss && restore_to@ == miss[miss.len() - 1])
            &&& (miss.len() > 0 ==> (dry_run <==> r is DryRun))
        }),
{
    let entries = parse_log(log);
    let commits = filter_pr_commits(&entries);
    let miss = compute_missing(&commits, existing, force);
    if miss.len() == 0 {
        return BackfillPlan::NothingToDo;
    }
    if dry_run {
        return BackfillPlan::DryRun(miss);
    }
    let restore_to = miss[miss.len() - 1].clone();
    proof {
        assert(restore_to@ == miss.deep_view()[miss.deep_view().len() - 1]);
    }
    BackfillPlan::Execute { commits: miss, restore_to }
}

} // verus!
