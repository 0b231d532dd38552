//! Rebuilding a run's manifest from what is actually on disk: the
//! source of truth of last resort.  The benchmark list is recomputed
//! from the file paths alone, sorted for determinism; the system
//! descriptor is preserved from the existing manifest when it is
//! readable, else from the legacy descriptor file, else the run is
//! reported unrecoverable.
//!
//! Reading a rebuilt manifest back yields the very descriptor fields
//! that went in — proved below — so rebuilding twice on an unchanged
//! tree writes byte-identical text.

use vstd::prelude::*;

use crate::common::{manifest_json, manifest_json_spec, valid_value_text};
use crate::emit::{escape_spec, fields_tail_spec, quote_spec, strings_array_spec};
use crate::emit::pairs_view;
use crate::json::{
    fields_view, lemma_parse_written_string, lemma_skip_value_translate,
    lemma_skip_written_array, lemma_skip_ws_at, parse_fields, parse_fields_spec, parse_string_body,
    skip_value_spec, skip_ws, skip_ws_spec,
};
use crate::store::{ids_of_paths, lemma_ids_of_paths_snoc, path_to_id, split_from_exec};
use crate::text::{
    chars_eq_str, chars_to_string, is_ws, sort_spec, sort_strings, str_eq, str_to_chars,
};

verus! {

/// Is this key one the manifest itself owns, rather than part of the
/// system descriptor?
pub open spec fn reserved_key(k: Seq<char>) -> bool {
    k == "commit_hash"@ || k == "name"@ || k == "benchmarks"@
}

/// The descriptor fields of a manifest object: every field but the
/// reserved ones, each as its key and the raw text of its value.
pub open spec fn sys_fields_of(s: Seq<char>, fs: Seq<(Seq<char>, int, int)>) -> Seq<
    (Seq<char>, Seq<char>),
>
    decreases fs.len(),
{
    if fs.len() == 0 {
        Seq::empty()
    } else {
        (if reserved_key(fs[0].0) {
            Seq::empty()
        } else {
            seq![(fs[0].0, s.subrange(fs[0].1, fs[0].2))]
        }) + sys_fields_of(s, fs.skip(1))
    }
}

/// What a manifest (or legacy descriptor) text yields: its descriptor
/// fields, if the text is one whole JSON object.
pub open spec fn manifest_parts_spec(s: Seq<char>) -> Option<Seq<(Seq<char>, Seq<char>)>> {
    let i = skip_ws_spec(s, 0);
    if !(0 <= i < s.len() && s[i] == '{') {
        None
    } else {
        match parse_fields_spec(s, i + 1, true) {
            None => None,
            Some((fs, e)) => {
                if skip_ws_spec(s, e) != s.len() {
                    None
                } else {
                    Some(sys_fields_of(s, fs))
                }
            },
        }
    }
}

proof fn lemma_sys_fields_snoc(s: Seq<char>, fs: Seq<(Seq<char>, int, int)>, f: (Seq<char>, int, int))
    ensures
        sys_fields_of(s, fs.push(f)) == sys_fields_of(s, fs) + (if reserved_key(f.0) {
            Seq::<(Seq<char>, Seq<char>)>::empty()
        } else {
            seq![(f.0, s.subrange(f.1, f.2))]
        }),
    decreases fs.len(),
{
    if fs.len() == 0 {
        reveal_with_fuel(sys_fields_of, 3);
        assert(fs.push(f)[0] == f);
        assert(fs.push(f).skip(1) =~= Seq::<(Seq<char>, int, int)>::empty());
        assert(sys_fields_of(s, fs.push(f)) =~= sys_fields_of(s, fs) + (if reserved_key(f.0) {
            Seq::<(Seq<char>, Seq<char>)>::empty()
        } else {
            seq![(f.0, s.subrange(f.1, f.2))]
        }));
    } else {
        lemma_sys_fields_snoc(s, fs.skip(1), f);
        assert(fs.push(f).skip(1) =~= fs.skip(1).push(f));
        assert(fs.push(f)[0] == fs[0]);
        assert(sys_fields_of(s, fs.push(f)) =~= sys_fields_of(s, fs) + (if reserved_key(f.0) {
            Seq::<(Seq<char>, Seq<char>)>::empty()
        } else {
            seq![(f.0, s.subrange(f.1, f.2))]
        }));
    }
}

/// Read a manifest or descriptor text into its descriptor fields.
pub fn manifest_parts(text: &str) -> (r: Option<Vec<(String, String)>>)
    ensures
        match r {
            Some(sf) => manifest_parts_spec(text@) == Some(pairs_view(sf@)),
            None => manifest_parts_spec(text@) is None,
        },
{
    let s = str_to_chars(text);
    let i = skip_ws(&s, 0);
    if i >= s.len() {
        return None;
    }
    if s[i] != '{' {
        return None;
    }
    let (fs, e) = match parse_fields(&s, i + 1, true) {
        None => {
            return None;
        },
        Some(r) => r,
    };
    if skip_ws(&s, e) != s.len() {
        return None;
    }
    let ghost fv = fields_view(fs@);
    let mut sf: Vec<(String, String)> = Vec::new();
    let mut p: usize = 0;
    proof {
        assert(fv.take(0) =~= Seq::<(Seq<char>, int, int)>::empty());
        assert(pairs_view(sf@) =~= sys_fields_of(s@, fv.take(0)));
    }
    while p < fs.len()
        invariant
            0 <= p <= fs.len(),
            s@ == text@,
            i < s.len(),
            parse_fields_spec(s@, i as int + 1, true) == Some((fv, e as int)),
            fv == fields_view(fs@),
            fv.len() == fs.len(),
            pairs_view(sf@) == sys_fields_of(s@, fv.take(p as int)),
        decreases fs.len() - p,
    {
        proof {
            let ghost pp = p as int;
            assert(fv[pp] == (fs@[pp].0@, fs@[pp].1 as int, fs@[pp].2 as int));
            lemma_sys_fields_snoc(s@, fv.take(pp), fv[pp]);
            assert(fv.take(pp).push(fv[pp]) =~= fv.take(pp + 1));
            crate::json::lemma_parse_fields_bounds(s@, i as int + 1, true);
            assert(parse_fields_spec(s@, i as int + 1, true)->Some_0.0[pp] == fv[pp]);
        }
        let key = &fs[p].0;
        let is_reserved = str_eq(key.as_str(), "commit_hash") || str_eq(key.as_str(), "name")
            || str_eq(key.as_str(), "benchmarks");
        if !is_reserved {
            let raw = crate::store::copy_range(&s, fs[p].1, fs[p].2);
            sf.push((key.clone(), chars_to_string(&raw)));
            proof {
                assert(pairs_view(sf@) =~= sys_fields_of(s@, fv.take(p + 1)));
            }
        } else {
            proof {
                assert(pairs_view(sf@) =~= sys_fields_of(s@, fv.take(p + 1)));
            }
        }
        p = p + 1;
    }
    proof {
        assert(fv.take(fv.len() as int) =~= fv);
    }
    Some(sf)
}

/// The benchmark id one stored file stands for, if any.
pub fn path_id(p: &str) -> (r: Option<String>)
    ensures
        match r {
            Some(id) => path_to_id(p@) == Some(id@),
            None => path_to_id(p@) is None,
        },
{
    let chars = str_to_chars(p);
    if chars.len() < 5 {
        proof {
            reveal_strlit(".json");
        }
        return None;
    }
    let tail = crate::store::copy_range(&chars, chars.len() - 5, chars.len());
    if !chars_eq_str(&tail, ".json") {
        proof {
            assert(p@.skip(p@.len() - 5) =~= tail@);
        }
        return None;
    }
    proof {
        assert(p@.skip(p@.len() - 5) =~= tail@);
    }
    let stem = crate::store::copy_range(&chars, 0, chars.len() - 5);
    proof {
        assert(stem@ =~= p@.take(p@.len() - 5));
    }
    let segs = split_from_exec(&stem, 0);
    if segs.len() == 1 && (chars_eq_str(&stem, "run") || chars_eq_str(&stem, "system_info")) {
        return None;
    }
    proof {
        assert(crate::store::split_slash(stem@)[segs.len() - 1] =~= segs@[segs.len() - 1]@);
    }
    if segs.len() > 1 && chars_eq_str(&segs[segs.len() - 1], "group") {
        return None;
    }
    Some(chars_to_string(&stem))
}

/// The benchmark ids a run directory's files stand for, in file order.
/// This is the scan the rebuilt manifest is made from.
pub fn collect_bench_ids(files: &Vec<(String, String)>) -> (ids: Vec<String>)
    ensures
        ids.deep_view() == ids_of_paths(pairs_view(files@)),
{
    let ghost fv = pairs_view(files@);
    let mut ids: Vec<String> = Vec::new();
    let mut i: usize = 0;
    proof {
        assert(fv.take(0) =~= Seq::<(Seq<char>, Seq<char>)>::empty());
        assert(ids.deep_view() =~= ids_of_paths(fv.take(0)));
    }
    while i < files.len()
        invariant
            0 <= i <= files.len(),
            fv == pairs_view(files@),
            fv.len() == files.len(),
            ids.deep_view() == ids_of_paths(fv.take(i as int)),
        decreases files.len() - i,
    {
        proof {
            let ghost ii = i as int;
            assert(fv[ii] == (files@[ii].0@, files@[ii].1@));
            lemma_ids_of_paths_snoc(fv.take(ii), fv[ii]);
            assert(fv.take(ii).push(fv[ii]) =~= fv.take(ii + 1));
        }
        match path_id(files[i].0.as_str()) {
            Some(id) => {
                ids.push(id);
                proof {
                    assert(ids.deep_view() =~= ids_of_paths(fv.take(i + 1)));
                }
            },
            None => {
                proof {
                    assert(ids.deep_view() =~= ids_of_paths(fv.take(i + 1)));
                }
            },
        }
        i = i + 1;
    }
    proof {
        assert(fv.take(fv.len() as int) =~= fv);
    }
    ids
}

/// The content of the first file on path `p`, if any.
pub open spec fn first_file_content(
    files: Seq<(Seq<char>, Seq<char>)>,
    p: Seq<char>,
) -> Option<Seq<char>>
    decreases files.len(),
{
    if files.len() == 0 {
        None
    } else if files[0].0 == p {
        Some(files[0].1)
    } else {
        first_file_content(files.skip(1), p)
    }
}

fn find_file(files: &Vec<(String, String)>, p: &str) -> (r: Option<String>)
    ensures
        match r {
            Some(c) => first_file_content(pairs_view(files@), p@) == Some(c@),
            None => first_file_content(pairs_view(files@), p@) is None,
        },
{
    let ghost fv = pairs_view(files@);
    let mut i: usize = 0;
    proof {
        assert(fv.skip(0) =~= fv);
    }
    while i < files.len()
        invariant
            0 <= i <= files.len(),
            fv == pairs_view(files@),
            fv.len() == files.len(),
            first_file_content(fv, p@) == first_file_content(fv.skip(i as int), p@),
        decreases files.len() - i,
    {
        proof {
            let ghost ii = i as int;
            assert(fv.skip(ii)[0] == fv[ii]);
            assert(fv.skip(ii).skip(1) =~= fv.skip(ii + 1));
            assert(fv[ii] == (files@[ii].0@, files@[ii].1@));
        }
        if str_eq(files[i].0.as_str(), p) {
            return Some(files[i].1.clone());
        }
        i = i + 1;
    }
    None
}

pub enum SyncError {
    /// Neither the manifest nor the legacy descriptor file was
    /// readable; the run is unrecoverable and is skipped.
    MissingSystemInfo,
}

/// The descriptor fields a run's files yield: from the manifest when
/// it is readable, else from the legacy descriptor file.
pub open spec fn descriptor_of(files: Seq<(Seq<char>, Seq<char>)>) -> Option<
    Seq<(Seq<char>, Seq<char>)>,
> {
    let from_manifest = match first_file_content(files, "run.json"@) {
        Some(c) => manifest_parts_spec(c),
        None => None,
    };
    match from_manifest {
        Some(sf) => Some(sf),
        None => match first_file_content(files, "system_info.json"@) {
            Some(c) => manifest_parts_spec(c),
            None => None,
        },
    }
}

/// What rebuilding one run's manifest yields: descriptor fields from
/// the readable source, ids from the file paths, sorted.
pub open spec fn reconcile_spec(
    files: Seq<(Seq<char>, Seq<char>)>,
    h: Seq<char>,
    n: Seq<char>,
) -> Option<Seq<char>> {
    match descriptor_of(files) {
        None => None,
        Some(sf) => Some(manifest_json_spec(h, n, sf, sort_spec(ids_of_paths(files)))),
    }
}

/// Rebuild one run's manifest from the files under its directory,
/// handed in as `(relative path, content)` pairs.  Returns the new
/// manifest text to write at `run.json`; it fails exactly when no
/// descriptor can be read.
pub fn ensure_run_json(files: &Vec<(String, String)>, commit_hash: &str, run_name: &str) -> (r:
    Result<String, SyncError>)
    ensures
        match reconcile_spec(pairs_view(files@), commit_hash@, run_name@) {
            Some(t) => r matches Ok(s) && s@ == t,
            None => r is Err,
        },
{
    let sys: Option<Vec<(String, String)>> = match find_file(files, "run.json") {
        Some(c) => manifest_parts(c.as_str()),
        None => None,
    };
    let sys: Option<Vec<(String, String)>> = match sys {
        Some(sf) => Some(sf),
        None => match find_file(files, "system_info.json") {
            Some(c) => manifest_parts(c.as_str()),
            None => None,
        },
    };
    let sf = match sys {
        None => {
            return Err(SyncError::MissingSystemInfo);
        },
        Some(sf) => sf,
    };
    let ids = collect_bench_ids(files);
    let ids = sort_strings(&ids);
    Ok(manifest_json(commit_hash, run_name, &sf, &ids))
}

/// A value's text never starts with whitespace.
proof fn lemma_value_start_not_ws(r: Seq<char>)
    requires
        skip_value_spec(r, 0) is Some,
    ensures
        r.len() > 0,
        !is_ws(r[0]),
{
    if r.len() > 0 && is_ws(r[0]) {
        assert(skip_value_spec(r, 0) is None);
    }
}

/// Writing splices field lists one after the other.
proof fn lemma_fields_tail_concat(a: Seq<(Seq<char>, Seq<char>)>, b: Seq<(Seq<char>, Seq<char>)>)
    ensures
        fields_tail_spec(a + b) == fields_tail_spec(a) + fields_tail_spec(b),
    decreases a.len(),
{
    if a.len() == 0 {
        assert(a + b =~= b);
        assert(fields_tail_spec(a) =~= Seq::<char>::empty());
        assert(fields_tail_spec(a + b) =~= fields_tail_spec(a) + fields_tail_spec(b));
    } else {
        lemma_fields_tail_concat(a.skip(1), b);
        assert((a + b).skip(1) =~= a.skip(1) + b);
        assert((a + b)[0] == a[0]);
        assert(fields_tail_spec(a + b) =~= fields_tail_spec(a) + fields_tail_spec(b));
    }
}

/// Walking a written field tail: from a position where the text is
/// `,"k1":v1,"k2":v2...` followed by `}`, the field walk reads back
/// exactly the written keys, each value's span holding its text.
#[verifier::rlimit(80)]
proof fn lemma_parse_written_fields(s: Seq<char>, pos: int, fs: Seq<(Seq<char>, Seq<char>)>)
    requires
        0 <= pos,
        pos + fields_tail_spec(fs).len() + 1 <= s.len(),
        forall|p: int|
            pos <= p < pos + fields_tail_spec(fs).len() ==> #[trigger] s[p] == fields_tail_spec(
                fs,
            )[p - pos],
        s[pos + fields_tail_spec(fs).len()] == '}',
        forall|k: int|
            0 <= k < fs.len() ==> skip_value_spec((#[trigger] fs[k]).1, 0) == Some(
                fs[k].1.len() as int,
            ),
    ensures
        parse_fields_spec(s, pos, false) is Some,
        parse_fields_spec(s, pos, false)->Some_0.1 == pos + fields_tail_spec(fs).len() + 1,
        sys_fields_of(s, parse_fields_spec(s, pos, false)->Some_0.0) == filter_descriptor(fs),
    decreases fs.len(),
{
    if fs.len() == 0 {
        assert(fields_tail_spec(fs).len() == 0);
        assert(s[pos] == '}');
        lemma_skip_ws_at(s, pos, pos);
        assert(parse_fields_spec(s, pos, false) == Some(
            (Seq::<(Seq<char>, int, int)>::empty(), pos + 1),
        ));
        assert(sys_fields_of(s, Seq::<(Seq<char>, int, int)>::empty()) =~= filter_descriptor(fs));
    } else {
        let k0 = fs[0].0;
        let r0 = fs[0].1;
        let head = seq![','] + quote_spec(k0) + seq![':'] + r0;
        let rest_text = fields_tail_spec(fs.skip(1));
        assert(fields_tail_spec(fs) == head + rest_text);
        assert(s[pos] == ',') by {
            assert(fields_tail_spec(fs)[0] == ',');
        }
        lemma_skip_ws_at(s, pos, pos);
        let k = pos + 1;
        assert(s[k] == '"') by {
            assert(fields_tail_spec(fs)[1] == quote_spec(k0)[0]);
        }
        lemma_skip_ws_at(s, k, k);
        lemma_parse_written_string(
            s.take(k + 1),
            k0,
            s.skip(k + 1 + escape_spec(k0).len() + 1),
        );
        assert(s.take(k + 1) + escape_spec(k0) + seq!['"'] + s.skip(k + 1 + escape_spec(
            k0,
        ).len() + 1) =~= s) by {
            assert forall|p: int|
                0 <= p < quote_spec(k0).len() implies s[k + p] == quote_spec(k0)[p] by {
                assert(fields_tail_spec(fs)[1 + p] == quote_spec(k0)[p]);
            }
        }
        assert(parse_string_body(s, k + 1) == Some((k0, k + quote_spec(k0).len())));
        let e1 = k + quote_spec(k0).len();
        assert(s[e1] == ':') by {
            assert(fields_tail_spec(fs)[e1 - pos] == ':');
        }
        lemma_skip_ws_at(s, e1, e1);
        let v = e1 + 1;
        lemma_value_start_not_ws(r0);
        assert(s[v] == r0[0]) by {
            assert(fields_tail_spec(fs)[v - pos] == r0[0]);
        }
        lemma_skip_ws_at(s, v, v);
        let e = v + r0.len();
        assert forall|p: int| 0 <= p < r0.len() implies s[v + p] == r0[p] by {
            assert(fields_tail_spec(fs)[v - pos + p] == r0[p]);
        }
        // the value is followed by the next comma or the closing brace
        assert(s[e] == ',' || s[e] == '}') by {
            if rest_text.len() > 0 {
                assert(fields_tail_spec(fs)[e - pos] == rest_text[0]);
                assert(rest_text[0] == ',') by {
                    assert(fs.skip(1).len() > 0);
                }
            }
        }
        lemma_skip_value_translate(r0, 0, s, v);
        assert(skip_value_spec(s, v) == Some(e));
        assert forall|p: int|
            e <= p < e + rest_text.len() implies #[trigger] s[p] == rest_text[p - e] by {
            assert(fields_tail_spec(fs)[p - pos] == rest_text[p - e]);
        }
        lemma_parse_written_fields(s, e, fs.skip(1));
        let (fl_rest, end) = parse_fields_spec(s, e, false)->Some_0;
        assert(parse_fields_spec(s, pos, false) == Some(
            (seq![(k0, v, e)] + fl_rest, end),
        ));
        assert(s.subrange(v, e) =~= r0);
        let fl = seq![(k0, v, e)] + fl_rest;
        assert(fl[0] == (k0, v, e));
        assert(fl.skip(1) =~= fl_rest);
        assert(filter_descriptor(fs) == (if reserved_key(k0) {
            Seq::<(Seq<char>, Seq<char>)>::empty()
        } else {
            seq![(k0, r0)]
        }) + filter_descriptor(fs.skip(1)));
        assert(sys_fields_of(s, fl) == (if reserved_key(k0) {
            Seq::<(Seq<char>, Seq<char>)>::empty()
        } else {
            seq![(k0, r0)]
        }) + sys_fields_of(s, fl_rest));
    }
}

/// The descriptor fields among a written field list: those without a
/// reserved key.
pub open spec fn filter_descriptor(fs: Seq<(Seq<char>, Seq<char>)>) -> Seq<(Seq<char>, Seq<char>)>
    decreases fs.len(),
{
    if fs.len() == 0 {
        Seq::empty()
    } else {
        (if reserved_key(fs[0].0) {
            Seq::empty()
        } else {
            seq![fs[0]]
        }) + filter_descriptor(fs.skip(1))
    }
}

proof fn lemma_filter_descriptor_concat(
    a: Seq<(Seq<char>, Seq<char>)>,
    b: Seq<(Seq<char>, Seq<char>)>,
)
    ensures
        filter_descriptor(a + b) == filter_descriptor(a) + filter_descriptor(b),
    decreases a.len(),
{
    if a.len() == 0 {
        assert(a + b =~= b);
        assert(filter_descriptor(a) =~= Seq::<(Seq<char>, Seq<char>)>::empty());
        assert(filter_descriptor(a + b) =~= filter_descriptor(a) + filter_descriptor(b));
    } else {
        lemma_filter_descriptor_concat(a.skip(1), b);
        assert((a + b).skip(1) =~= a.skip(1) + b);
        assert((a + b)[0] == a[0]);
        assert(filter_descriptor(a + b) =~= filter_descriptor(a) + filter_descriptor(b));
    }
}

proof fn lemma_filter_descriptor_id(fs: Seq<(Seq<char>, Seq<char>)>)
    requires
        forall|k: int| 0 <= k < fs.len() ==> !reserved_key((#[trigger] fs[k]).0),
    ensures
        filter_descriptor(fs) == fs,
    decreases fs.len(),
{
    if fs.len() > 0 {
        lemma_filter_descriptor_id(fs.skip(1));
        assert(filter_descriptor(fs) =~= fs);
    }
}

/// A written quoted string is itself one whole JSON value.
proof fn lemma_written_string_value(x: Seq<char>)
    ensures
        skip_value_spec(quote_spec(x), 0) == Some(quote_spec(x).len() as int),
{
    let q = quote_spec(x);
    assert(q[0] == '"');
    lemma_parse_written_string(seq!['"'], x, Seq::empty());
    assert(seq!['"'] + escape_spec(x) + seq!['"'] + Seq::<char>::empty() =~= q);
    assert(parse_string_body(q, 1) == Some((x, q.len() as int)));
}

/// The descriptor and benchmark fields as the writer lays them out
/// after the first two.
pub open spec fn combined_fields(
    n: Seq<char>,
    sf: Seq<(Seq<char>, Seq<char>)>,
    ids: Seq<Seq<char>>,
) -> Seq<(Seq<char>, Seq<char>)> {
    seq![("name"@, quote_spec(n))] + sf + seq![("benchmarks"@, strings_array_spec(ids))]
}

/// Everything before the written field tail.
pub open spec fn manifest_prefix(h: Seq<char>) -> Seq<char> {
    seq!['{'] + quote_spec("commit_hash"@) + seq![':'] + quote_spec(h)
}

/// The written manifest is one hand-written field followed by one
/// written field tail.
proof fn lemma_manifest_shape(
    h: Seq<char>,
    n: Seq<char>,
    sf: Seq<(Seq<char>, Seq<char>)>,
    ids: Seq<Seq<char>>,
)
    ensures
        manifest_json_spec(h, n, sf, ids) == manifest_prefix(h) + fields_tail_spec(
            combined_fields(n, sf, ids),
        ) + seq!['}'],
{
    let name_field = ("name"@, quote_spec(n));
    let bench_field = ("benchmarks"@, strings_array_spec(ids));
    let combined = combined_fields(n, sf, ids);
    lemma_fields_tail_concat(seq![name_field], sf + seq![bench_field]);
    lemma_fields_tail_concat(sf, seq![bench_field]);
    assert(combined =~= seq![name_field] + (sf + seq![bench_field]));
    assert(fields_tail_spec(seq![name_field]) =~= seq![','] + quote_spec("name"@) + seq![':']
        + quote_spec(n)) by {
        reveal_with_fuel(fields_tail_spec, 2);
        assert(seq![name_field][0] == name_field);
        assert(seq![name_field].skip(1) =~= Seq::<(Seq<char>, Seq<char>)>::empty());
        assert(fields_tail_spec(Seq::<(Seq<char>, Seq<char>)>::empty()) =~= Seq::<char>::empty());
    }
    assert(fields_tail_spec(seq![bench_field]) =~= seq![','] + quote_spec("benchmarks"@) + seq![
        ':',
    ] + strings_array_spec(ids)) by {
        reveal_with_fuel(fields_tail_spec, 2);
        assert(seq![bench_field][0] == bench_field);
        assert(seq![bench_field].skip(1) =~= Seq::<(Seq<char>, Seq<char>)>::empty());
        assert(fields_tail_spec(Seq::<(Seq<char>, Seq<char>)>::empty()) =~= Seq::<char>::empty());
    }
    assert(fields_tail_spec(combined) == fields_tail_spec(seq![name_field]) + (fields_tail_spec(
        sf,
    ) + fields_tail_spec(seq![bench_field])));
    assert(manifest_json_spec(h, n, sf, ids) =~= manifest_prefix(h) + fields_tail_spec(combined)
        + seq!['}']);
}

/// Filtering the written field tail recovers exactly the descriptor.
proof fn lemma_combined_filter(
    n: Seq<char>,
    sf: Seq<(Seq<char>, Seq<char>)>,
    ids: Seq<Seq<char>>,
)
    requires
        forall|k: int| 0 <= k < sf.len() ==> !reserved_key((#[trigger] sf[k]).0),
    ensures
        filter_descriptor(combined_fields(n, sf, ids)) == sf,
{
    let name_field = ("name"@, quote_spec(n));
    let bench_field = ("benchmarks"@, strings_array_spec(ids));
    lemma_filter_descriptor_concat(seq![name_field], sf + seq![bench_field]);
    lemma_filter_descriptor_concat(sf, seq![bench_field]);
    assert(combined_fields(n, sf, ids) =~= seq![name_field] + (sf + seq![bench_field]));
    assert(filter_descriptor(seq![name_field]) =~= Seq::<(Seq<char>, Seq<char>)>::empty()) by {
        reveal_with_fuel(filter_descriptor, 2);
        assert(seq![name_field][0] == name_field);
        assert(reserved_key("name"@));
        assert(seq![name_field].skip(1) =~= Seq::<(Seq<char>, Seq<char>)>::empty());
    }
    assert(filter_descriptor(seq![bench_field]) =~= Seq::<(Seq<char>, Seq<char>)>::empty()) by {
        reveal_with_fuel(filter_descriptor, 2);
        assert(seq![bench_field][0] == bench_field);
        assert(reserved_key("benchmarks"@));
        assert(seq![bench_field].skip(1) =~= Seq::<(Seq<char>, Seq<char>)>::empty());
    }
    lemma_filter_descriptor_id(sf);
    assert(filter_descriptor(combined_fields(n, sf, ids)) =~= sf);
}

/// What the manifest writer produces always reads back as exactly the
/// descriptor fields that went in.
#[verifier::rlimit(100)]
#[verifier::spinoff_prover]
pub proof fn lemma_written_manifest_reads_back(
    h: Seq<char>,
    n: Seq<char>,
    sf: Seq<(Seq<char>, Seq<char>)>,
    ids: Seq<Seq<char>>,
)
    requires
        forall|k: int| 0 <= k < sf.len() ==> !reserved_key((#[trigger] sf[k]).0),
        forall|k: int| 0 <= k < sf.len() ==> valid_value_text((#[trigger] sf[k]).1),
    ensures
        manifest_parts_spec(manifest_json_spec(h, n, sf, ids)) == Some(sf),
{
    let s = manifest_json_spec(h, n, sf, ids);
    let combined = combined_fields(n, sf, ids);
    let prefix = manifest_prefix(h);
    lemma_manifest_shape(h, n, sf, ids);

    assert(s[0] == '{');
    lemma_skip_ws_at(s, 0, 0);
    // the first field, written by hand: "commit_hash": "<h>"
    assert(s[1] == '"') by {
        assert(prefix[1] == quote_spec("commit_hash"@)[0]);
    }
    lemma_skip_ws_at(s, 1, 1);
    lemma_parse_written_string(
        s.take(2),
        "commit_hash"@,
        s.skip(2 + escape_spec("commit_hash"@).len() as int + 1),
    );
    assert(s.take(2) + escape_spec("commit_hash"@) + seq!['"'] + s.skip(2 + escape_spec(
        "commit_hash"@,
    ).len() as int + 1) =~= s) by {
        assert forall|p: int|
            0 <= p < quote_spec("commit_hash"@).len() implies s[1 + p] == quote_spec(
            "commit_hash"@,
        )[p] by {
            assert(prefix[1 + p] == quote_spec("commit_hash"@)[p]);
        }
    }
    let e1 = 1 + quote_spec("commit_hash"@).len() as int;
    assert(parse_string_body(s, 2) == Some(("commit_hash"@, e1)));
    assert(s[e1] == ':') by {
        assert(prefix[e1] == ':');
    }
    lemma_skip_ws_at(s, e1, e1);
    let v = e1 + 1;
    assert(s[v] == '"') by {
        assert(prefix[v] == quote_spec(h)[0]);
    }
    lemma_skip_ws_at(s, v, v);
    lemma_parse_written_string(s.take(v + 1), h, s.skip(v + 1 + escape_spec(h).len() as int + 1));
    assert(s.take(v + 1) + escape_spec(h) + seq!['"'] + s.skip(v + 1 + escape_spec(h).len() as int
        + 1) =~= s) by {
        assert forall|p: int|
            0 <= p < quote_spec(h).len() implies s[v + p] == quote_spec(h)[p] by {
            assert(prefix[v + p] == quote_spec(h)[p]);
        }
    }
    let e = v + quote_spec(h).len() as int;
    assert(e == prefix.len());
    assert(parse_string_body(s, v + 1) == Some((h, e)));
    assert(skip_value_spec(s, v) == Some(e));
    // the remaining fields are one written tail
    assert forall|p: int|
        e <= p < e + fields_tail_spec(combined).len() implies #[trigger] s[p] == fields_tail_spec(
        combined,
    )[p - e] by {
        assert(s[p] == (prefix + fields_tail_spec(combined) + seq!['}'])[p]);
    }
    assert(s[e + fields_tail_spec(combined).len()] == '}');
    assert forall|q: int|
        0 <= q < combined.len() implies skip_value_spec((#[trigger] combined[q]).1, 0) == Some(
        combined[q].1.len() as int,
    ) by {
        if q == 0 {
            lemma_written_string_value(n);
        } else if q == combined.len() - 1 {
            lemma_skip_written_array(strings_array_spec(ids), 0, ids);
        } else {
            assert(combined[q] == sf[q - 1]);
        }
    }
    lemma_parse_written_fields(s, e, combined);
    let (fl_rest, end) = parse_fields_spec(s, e, false)->Some_0;
    assert(parse_fields_spec(s, 1, true) == Some((seq![("commit_hash"@, v, e)] + fl_rest, end)));
    assert(end == s.len());
    lemma_skip_ws_at(s, end, end);
    // assemble: the hand-written field is reserved, the walked tail
    // filters down to exactly the descriptor fields
    let full = seq![("commit_hash"@, v, e)] + fl_rest;
    assert(full[0] == ("commit_hash"@, v, e));
    assert(full.skip(1) =~= fl_rest);
    assert(reserved_key("commit_hash"@));
    assert(sys_fields_of(s, full) == sys_fields_of(s, fl_rest));
    lemma_combined_filter(n, sf, ids);
    assert(manifest_parts_spec(s) == Some(sf));
}

/// Everything a manifest extraction hands back is a descriptor field:
/// no reserved key, and a value that is one whole JSON value.
pub proof fn lemma_extracted_fields_valid(c: Seq<char>)
    requires
        manifest_parts_spec(c) is Some,
    ensures
        forall|k: int|
            0 <= k < manifest_parts_spec(c)->Some_0.len() ==> !reserved_key(
                (#[trigger] manifest_parts_spec(c)->Some_0[k]).0,
            ),
        forall|k: int|
            0 <= k < manifest_parts_spec(c)->Some_0.len() ==> valid_value_text(
                (#[trigger] manifest_parts_spec(c)->Some_0[k]).1,
            ),
{
    let i = skip_ws_spec(c, 0);
    let (fs, e) = crate::json::parse_fields_spec(c, i + 1, true)->Some_0;
    crate::json::lemma_parse_fields_bounds(c, i + 1, true);
    lemma_sys_fields_valid(c, fs, i + 1);
}

proof fn lemma_sys_fields_valid(s: Seq<char>, fs: Seq<(Seq<char>, int, int)>, origin: int)
    requires
        forall|p: int|
            0 <= p < fs.len() ==> {
                let f = #[trigger] fs[p];
                origin <= f.1 < f.2 <= s.len() && skip_value_spec(s, f.1) == Some(f.2)
            },
        0 <= origin,
    ensures
        forall|k: int|
            0 <= k < sys_fields_of(s, fs).len() ==> !reserved_key(
                (#[trigger] sys_fields_of(s, fs)[k]).0,
            ) && valid_value_text(sys_fields_of(s, fs)[k].1),
    decreases fs.len(),
{
    if fs.len() > 0 {
        assert forall|p: int|
            0 <= p < fs.skip(1).len() implies {
            let f = #[trigger] fs.skip(1)[p];
            origin <= f.1 < f.2 <= s.len() && skip_value_spec(s, f.1) == Some(f.2)
        } by {
            assert(fs.skip(1)[p] == fs[p + 1]);
        }
        lemma_sys_fields_valid(s, fs.skip(1), origin);
        let f = fs[0];
        let head = (if reserved_key(f.0) {
            Seq::<(Seq<char>, Seq<char>)>::empty()
        } else {
            seq![(f.0, s.subrange(f.1, f.2))]
        });
        assert(sys_fields_of(s, fs) == head + sys_fields_of(s, fs.skip(1)));
        if !reserved_key(f.0) {
            let r = s.subrange(f.1, f.2);
            assert(valid_value_text(r)) by {
                assert forall|p: int|
                    f.1 <= p < f.2 implies r[p + (0 - f.1)] == #[trigger] s[p] by {}
                lemma_skip_value_translate(s, f.1, r, 0);
            }
        }
        assert forall|k: int|
            0 <= k < sys_fields_of(s, fs).len() implies !reserved_key(
            (#[trigger] sys_fields_of(s, fs)[k]).0,
        ) && valid_value_text(sys_fields_of(s, fs)[k].1) by {
            if k >= head.len() {
                assert(sys_fields_of(s, fs)[k] == sys_fields_of(s, fs.skip(1))[k - head.len()]);
            }
        }
    }
}

/// The tree with every file at path `p` dropped.
pub open spec fn remove_path(
    files: Seq<(Seq<char>, Seq<char>)>,
    p: Seq<char>,
) -> Seq<(Seq<char>, Seq<char>)>
    decreases files.len(),
{
    if files.len() == 0 {
        Seq::empty()
    } else {
        (if files[0].0 == p {
            Seq::empty()
        } else {
            seq![files[0]]
        }) + remove_path(files.skip(1), p)
    }
}

/// The tree after the rebuilt manifest is written at `run.json`.
pub open spec fn with_manifest(
    files: Seq<(Seq<char>, Seq<char>)>,
    t: Seq<char>,
) -> Seq<(Seq<char>, Seq<char>)> {
    remove_path(files, "run.json"@).push(("run.json"@, t))
}

proof fn lemma_remove_path_gone(files: Seq<(Seq<char>, Seq<char>)>, p: Seq<char>)
    ensures
        !crate::store::has_path(remove_path(files, p), p),
    decreases files.len(),
{
    if files.len() > 0 {
        lemma_remove_path_gone(files.skip(1), p);
        let r = remove_path(files, p);
        let rest = remove_path(files.skip(1), p);
        if crate::store::has_path(r, p) {
            let i = choose|i: int| 0 <= i < r.len() && (#[trigger] r[i]).0 == p;
            if files[0].0 == p {
                assert(r[i] == rest[i]);
                assert(crate::store::has_path(rest, p));
            } else {
                if i == 0 {
                    assert(r[0] == files[0]);
                } else {
                    assert(r[i] == rest[i - 1]);
                    assert(crate::store::has_path(rest, p));
                }
            }
        }
    }
}

proof fn lemma_first_content_of_push(
    xs: Seq<(Seq<char>, Seq<char>)>,
    p: Seq<char>,
    t: Seq<char>,
)
    requires
        !crate::store::has_path(xs, p),
    ensures
        first_file_content(xs.push((p, t)), p) == Some(t),
    decreases xs.len(),
{
    if xs.len() == 0 {
        reveal_with_fuel(first_file_content, 3);
        assert(xs.push((p, t))[0] == (p, t));
    } else {
        assert(xs[0].0 != p);
        assert(!crate::store::has_path(xs.skip(1), p)) by {
            if crate::store::has_path(xs.skip(1), p) {
                let i = choose|i: int|
                    0 <= i < xs.skip(1).len() && (#[trigger] xs.skip(1)[i]).0 == p;
                assert(xs[i + 1] == xs.skip(1)[i]);
            }
        }
        lemma_first_content_of_push(xs.skip(1), p, t);
        assert(xs.push((p, t)).skip(1) =~= xs.skip(1).push((p, t)));
        assert(xs.push((p, t))[0] == xs[0]);
    }
}

proof fn lemma_ids_of_remove_excluded(files: Seq<(Seq<char>, Seq<char>)>, p: Seq<char>)
    requires
        path_to_id(p) is None,
    ensures
        ids_of_paths(remove_path(files, p)) == ids_of_paths(files),
    decreases files.len(),
{
    if files.len() > 0 {
        lemma_ids_of_remove_excluded(files.skip(1), p);
        let r = remove_path(files, p);
        let rest = remove_path(files.skip(1), p);
        if files[0].0 == p {
            assert(r =~= rest);
            assert(ids_of_paths(files) =~= ids_of_paths(files.skip(1)));
        } else {
            assert(r == seq![files[0]] + rest);
            assert(r.len() > 0);
            assert(r[0] == files[0]);
            assert(r.skip(1) =~= rest);
            assert(ids_of_paths(r) =~= ids_of_paths(files));
        }
    }
}

/// Rebuilding a second time, on the tree the first rebuild left
/// behind, yields byte-identical manifest text.
pub proof fn lemma_reconcile_idempotent(
    files: Seq<(Seq<char>, Seq<char>)>,
    h: Seq<char>,
    n: Seq<char>,
)
    requires
        reconcile_spec(files, h, n) is Some,
    ensures
        reconcile_spec(with_manifest(files, reconcile_spec(files, h, n)->Some_0), h, n)
            == reconcile_spec(files, h, n),
{
    let t = reconcile_spec(files, h, n)->Some_0;
    let sf = descriptor_of(files)->Some_0;
    assert(t == manifest_json_spec(h, n, sf, sort_spec(ids_of_paths(files))));
    // the descriptor came from a successful read, so writing it back
    // yields a manifest that reads as exactly the same descriptor
    let origin: Seq<char> = match first_file_content(files, "run.json"@) {
        Some(c) => if manifest_parts_spec(c) is Some {
            c
        } else {
            first_file_content(files, "system_info.json"@)->Some_0
        },
        None => first_file_content(files, "system_info.json"@)->Some_0,
    };
    assert(manifest_parts_spec(origin) == Some(sf));
    lemma_extracted_fields_valid(origin);
    lemma_written_manifest_reads_back(h, n, sf, sort_spec(ids_of_paths(files)));
    assert(manifest_parts_spec(t) == Some(sf));
    let files2 = with_manifest(files, t);
    lemma_remove_path_gone(files, "run.json"@);
    lemma_first_content_of_push(remove_path(files, "run.json"@), "run.json"@, t);
    assert(first_file_content(files2, "run.json"@) == Some(t));
    crate::store::lemma_path_to_id_run_json();
    lemma_ids_of_remove_excluded(files, "run.json"@);
    crate::store::lemma_ids_of_paths_snoc(remove_path(files, "run.json"@), ("run.json"@, t));
    assert(ids_of_paths(files2) =~= ids_of_paths(files));
}

} // verus!
