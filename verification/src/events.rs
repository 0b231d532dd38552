//! The subprocess's streaming protocol: one JSON object per line, tagged
//! by a `reason` field as either a completed benchmark or a completed
//! group.  A line that does not decode contributes nothing — the stream
//! reader favours forward progress over strictness, since the producing
//! subprocess may interleave unrelated output.

use vstd::prelude::*;

use crate::json::{
    fields_view, parse_fields, parse_fields_spec, parse_string, parse_string_spec, skip_ws_spec,
    skip_value_spec,
};
use crate::emit::{append_char, append_quoted, append_string_array, quote_spec, strings_array_spec};
use crate::text::{chars_to_string, str_eq, str_to_chars};

verus! {

/// One finished benchmark: its id and the whole line it was reported on,
/// kept verbatim as the measurement payload.
pub struct BenchmarkComplete {
    pub id: String,
    pub payload: String,
}

/// One finished benchmark group and the ids it covered.
pub struct GroupComplete {
    pub group_name: String,
    pub benchmarks: Vec<String>,
}

/// A recognized line of the subprocess's output.
pub enum BenchmarkEvent {
    BenchmarkComplete(BenchmarkComplete),
    GroupComplete(GroupComplete),
}

pub struct BenchmarkCompleteV {
    pub id: Seq<char>,
    pub payload: Seq<char>,
}

pub struct GroupCompleteV {
    pub group_name: Seq<char>,
    pub benchmarks: Seq<Seq<char>>,
}

pub enum BenchmarkEventV {
    BenchmarkComplete(BenchmarkCompleteV),
    GroupComplete(GroupCompleteV),
}

impl View for BenchmarkComplete {
    type V = BenchmarkCompleteV;

    open spec fn view(&self) -> BenchmarkCompleteV {
        BenchmarkCompleteV { id: self.id@, payload: self.payload@ }
    }
}

impl View for GroupComplete {
    type V = GroupCompleteV;

    open spec fn view(&self) -> GroupCompleteV {
        GroupCompleteV { group_name: self.group_name@, benchmarks: self.benchmarks.deep_view() }
    }
}

impl View for BenchmarkEvent {
    type V = BenchmarkEventV;

    open spec fn view(&self) -> BenchmarkEventV {
        match self {
            BenchmarkEvent::BenchmarkComplete(e) => BenchmarkEventV::BenchmarkComplete(e@),
            BenchmarkEvent::GroupComplete(e) => BenchmarkEventV::GroupComplete(e@),
        }
    }
}

impl DeepView for BenchmarkEvent {
    type V = BenchmarkEventV;

    open spec fn deep_view(&self) -> BenchmarkEventV {
        self.view()
    }
}

/// The first field with the given key, as a raw value span.
pub open spec fn find_field(fs: Seq<(Seq<char>, int, int)>, key: Seq<char>) -> Option<(int, int)>
    decreases fs.len(),
{
    if fs.len() == 0 {
        None
    } else if fs[0].0 == key {
        Some((fs[0].1, fs[0].2))
    } else {
        find_field(fs.skip(1), key)
    }
}

fn find_field_exec(fs: &Vec<(String, usize, usize)>, key: &str) -> (r: Option<(usize, usize)>)
    ensures
        match r {
            Some((a, b)) => find_field(fields_view(fs@), key@) == Some((a as int, b as int)),
            None => find_field(fields_view(fs@), key@) is None,
        },
{
    let ghost fv = fields_view(fs@);
    let mut p: usize = 0;
    proof {
        assert(fv.skip(0) =~= fv);
    }
    while p < fs.len()
        invariant
            0 <= p <= fs.len(),
            fv == fields_view(fs@),
            fv.len() == fs.len(),
            find_field(fv, key@) == find_field(fv.skip(p as int), key@),
        decreases fs.len() - p,
    {
        proof {
            assert(fv.skip(p as int)[0] == fv[p as int]);
            assert(fv.skip(p as int).skip(1) =~= fv.skip(p + 1));
        }
        if str_eq(fs[p].0.as_str(), key) {
            return Some((fs[p].1, fs[p].2));
        }
        p = p + 1;
    }
    None
}

/// The decoded string a span holds, if the span is exactly one string.
pub open spec fn span_string(s: Seq<char>, a: int, b: int) -> Option<Seq<char>> {
    match parse_string_spec(s, a) {
        None => None,
        Some((t, j)) => if j == b {
            Some(t)
        } else {
            None
        },
    }
}

fn span_string_exec(s: &Vec<char>, a: usize, b: usize) -> (r: Option<String>)
    ensures
        match r {
            Some(t) => span_string(s@, a as int, b as int) == Some(t@),
            None => span_string(s@, a as int, b as int) is None,
        },
{
    if a >= s.len() {
        return None;
    }
    match parse_string(s, a) {
        None => None,
        Some((t, j)) => {
            if j == b {
                Some(chars_to_string(&t))
            } else {
                None
            }
        },
    }
}

/// The elements of an array whose elements are all strings, starting just
/// past `[` (or past an element when `first` is false).
pub open spec fn parse_strings_spec(s: Seq<char>, i: int, first: bool) -> Option<
    (Seq<Seq<char>>, int),
>
    decreases s.len() - i,
{
    let j = skip_ws_spec(s, i);
    if j < i || j >= s.len() {
        None
    } else if s[j] == ']' {
        Some((Seq::empty(), j + 1))
    } else {
        let k = if first {
            j
        } else {
            if s[j] == ',' {
                skip_ws_spec(s, j + 1)
            } else {
                -1
            }
        };
        if k < j || k >= s.len() {
            None
        } else {
            match parse_string_spec(s, k) {
                None => None,
                Some((t, e)) => if e <= i || e > s.len() {
                    None
                } else {
                    match parse_strings_spec(s, e, false) {
                        None => None,
                        Some((ts, end)) => Some((seq![t] + ts, end)),
                    }
                },
            }
        }
    }
}

fn parse_strings(s: &Vec<char>, i: usize, first: bool) -> (r: Option<(Vec<String>, usize)>)
    requires
        i <= s.len(),
    ensures
        match r {
            Some((ts, end)) => parse_strings_spec(s@, i as int, first) == Some(
                (ts.deep_view(), end as int),
            ) && i < end <= s.len(),
            None => parse_strings_spec(s@, i as int, first) is None,
        },
    decreases s.len() - i,
{
    let j = crate::json::skip_ws(s, i);
    if j >= s.len() {
        return None;
    }
    if s[j] == ']' {
        let ts: Vec<String> = Vec::new();
        proof {
            assert(ts.deep_view() =~= Seq::<Seq<char>>::empty());
        }
        return Some((ts, j + 1));
    }
    let k: usize = if first {
        j
    } else {
        if s[j] == ',' {
            crate::json::skip_ws(s, j + 1)
        } else {
            return None;
        }
    };
    if k >= s.len() {
        return None;
    }
    match parse_string(s, k) {
        None => None,
        Some((t, e)) => {
            match parse_strings(s, e, false) {
                None => None,
                Some((rest, end)) => {
                    let head = chars_to_string(&t);
                    let mut ts: Vec<String> = Vec::new();
                    ts.push(head);
                    let mut p: usize = 0;
                    while p < rest.len()
                        invariant
                            0 <= p <= rest.len(),
                            ts@.len() == p + 1,
                            ts.deep_view() =~= (seq![t@] + rest.deep_view()).take(p + 1),
                        decreases rest.len() - p,
                    {
                        ts.push(rest[p].clone());
                        proof {
                            assert(ts.deep_view() =~= (seq![t@] + rest.deep_view()).take(p + 2));
                        }
                        p = p + 1;
                    }
                    proof {
                        assert(ts.deep_view() =~= seq![t@] + rest.deep_view());
                    }
                    Some((ts, end))
                },
            }
        },
    }
}

/// The strings a span holds, if the span is exactly one array of strings.
pub open spec fn span_strings(s: Seq<char>, a: int, b: int) -> Option<Seq<Seq<char>>> {
    if 0 <= a < s.len() && s[a] == '[' {
        match parse_strings_spec(s, a + 1, true) {
            None => None,
            Some((ts, e)) => if e == b {
                Some(ts)
            } else {
                None
            },
        }
    } else {
        None
    }
}

pub fn span_strings_exec(s: &Vec<char>, a: usize, b: usize) -> (r: Option<Vec<String>>)
    ensures
        match r {
            Some(ts) => span_strings(s@, a as int, b as int) == Some(ts.deep_view()),
            None => span_strings(s@, a as int, b as int) is None,
        },
{
    if a >= s.len() {
        return None;
    }
    if s[a] != '[' {
        return None;
    }
    match parse_strings(s, a + 1, true) {
        None => None,
        Some((ts, e)) => {
            if e == b {
                Some(ts)
            } else {
                None
            }
        },
    }
}

/// What one line of the subprocess's output means: a whole JSON object
/// tagged `benchmark-complete` (with its `id`) or `group-complete` (with
/// its `group_name` and `benchmarks`); anything else is noise.
pub open spec fn decode_line_spec(s: Seq<char>) -> Option<BenchmarkEventV> {
    let i = skip_ws_spec(s, 0);
    if !(0 <= i < s.len() && s[i] == '{') {
        None
    } else {
        match parse_fields_spec(s, i + 1, true) {
            None => None,
            Some((fs, e)) => {
                if skip_ws_spec(s, e) != s.len() {
                    None
                } else {
                    match find_field(fs, "reason"@) {
                        None => None,
                        Some((a, b)) => match span_string(s, a, b) {
                            None => None,
                            Some(reason) => if reason == "benchmark-complete"@ {
                                match find_field(fs, "id"@) {
                                    None => None,
                                    Some((a2, b2)) => match span_string(s, a2, b2) {
                                        None => None,
                                        Some(id) => Some(
                                            BenchmarkEventV::BenchmarkComplete(
                                                BenchmarkCompleteV { id, payload: s },
                                            ),
                                        ),
                                    },
                                }
                            } else if reason == "group-complete"@ {
                                match find_field(fs, "group_name"@) {
                                    None => None,
                                    Some((a2, b2)) => match span_string(s, a2, b2) {
                                        None => None,
                                        Some(group_name) => match find_field(fs, "benchmarks"@) {
                                            None => None,
                                            Some((a3, b3)) => match span_strings(s, a3, b3) {
                                                None => None,
                                                Some(benchmarks) => Some(
                                                    BenchmarkEventV::GroupComplete(
                                                        GroupCompleteV { group_name, benchmarks },
                                                    ),
                                                ),
                                            },
                                        },
                                    },
                                }
                            } else {
                                None
                            },
                        },
                    }
                }
            },
        }
    }
}

/// Decode one line of subprocess output.
pub fn decode_line(line: &str) -> (r: Option<BenchmarkEvent>)
    ensures
        match r {
            Some(ev) => decode_line_spec(line@) == Some(ev@),
            None => decode_line_spec(line@) is None,
        },
{
    let s = str_to_chars(line);
    let i = crate::json::skip_ws(&s, 0);
    if i >= s.len() {
        return None;
    }
    if s[i] != '{' {
        return None;
    }
    match parse_fields(&s, i + 1, true) {
        None => None,
        Some((fs, e)) => {
            if crate::json::skip_ws(&s, e) != s.len() {
                return None;
            }
            match find_field_exec(&fs, "reason") {
                None => None,
                Some((a, b)) => {
                    match span_string_exec(&s, a, b) {
                        None => None,
                        Some(reason) => {
                            if str_eq(reason.as_str(), "benchmark-complete") {
                                match find_field_exec(&fs, "id") {
                                    None => None,
                                    Some((a2, b2)) => match span_string_exec(&s, a2, b2) {
                                        None => None,
                                        Some(id) => Some(
                                            BenchmarkEvent::BenchmarkComplete(
                                                BenchmarkComplete { id, payload: line.to_owned() },
                                            ),
                                        ),
                                    },
                                }
                            } else if str_eq(reason.as_str(), "group-complete") {
                                match find_field_exec(&fs, "group_name") {
                                    None => None,
                                    Some((a2, b2)) => match span_string_exec(&s, a2, b2) {
                                        None => None,
                                        Some(group_name) => match find_field_exec(
                                            &fs,
                                            "benchmarks",
                                        ) {
                                            None => None,
                                            Some((a3, b3)) => match span_strings_exec(&s, a3, b3) {
                                                None => None,
                                                Some(benchmarks) => Some(
                                                    BenchmarkEvent::GroupComplete(
                                                        GroupComplete { group_name, benchmarks },
                                                    ),
                                                ),
                                            },
                                        },
                                    },
                                }
                            } else {
                                None
                            }
                        },
                    }
                },
            }
        },
    }
}

/// The recognized events of a whole stream, line by line, in order;
/// undecodable lines contribute nothing.
pub open spec fn decode_stream_spec(lines: Seq<Seq<char>>) -> Seq<BenchmarkEventV>
    decreases lines.len(),
{
    if lines.len() == 0 {
        Seq::empty()
    } else {
        (match decode_line_spec(lines[0]) {
            Some(e) => seq![e],
            None => Seq::empty(),
        }) + decode_stream_spec(lines.skip(1))
    }
}

pub proof fn lemma_decode_stream_snoc(lines: Seq<Seq<char>>, line: Seq<char>)
    ensures
        decode_stream_spec(lines.push(line)) == decode_stream_spec(lines) + (
        match decode_line_spec(line) {
            Some(e) => seq![e],
            None => Seq::empty(),
        }),
    decreases lines.len(),
{
    if lines.len() == 0 {
        reveal_with_fuel(decode_stream_spec, 3);
        assert(lines.push(line)[0] == line);
        assert(lines.push(line).skip(1) =~= Seq::<Seq<char>>::empty());
        assert(decode_stream_spec(lines.push(line)) =~= decode_stream_spec(lines) + (
        match decode_line_spec(line) {
            Some(e) => seq![e],
            None => Seq::empty(),
        }));
    } else {
        lemma_decode_stream_snoc(lines.skip(1), line);
        assert(lines.push(line).skip(1) =~= lines.skip(1).push(line));
        assert(lines.push(line)[0] == lines[0]);
        assert(decode_stream_spec(lines.push(line)) =~= decode_stream_spec(lines) + (
        match decode_line_spec(line) {
            Some(e) => seq![e],
            None => Seq::empty(),
        }));
    }
}

/// Decode a whole captured stream, given as its lines.
pub fn decode_stream(lines: &Vec<String>) -> (evs: Vec<BenchmarkEvent>)
    ensures
        evs.deep_view() == decode_stream_spec(lines.deep_view()),
{
    let ghost lv: Seq<Seq<char>> = lines.deep_view();
    let mut evs: Vec<BenchmarkEvent> = Vec::new();
    proof {
        assert(lv.take(0) =~= Seq::<Seq<char>>::empty());
        assert(evs.deep_view() =~= decode_stream_spec(lv.take(0)));
    }
    let mut i: usize = 0;
    while i < lines.len()
        invariant
            0 <= i <= lines.len(),
            lv == lines.deep_view(),
            lv.len() == lines.len(),
            evs.deep_view() == decode_stream_spec(lv.take(i as int)),
        decreases lines.len() - i,
    {
        proof {
            assert(lv[i as int] == lines@[i as int]@);
            lemma_decode_stream_snoc(lv.take(i as int), lv[i as int]);
            assert(lv.take(i as int).push(lv[i as int]) =~= lv.take(i + 1));
        }
        match decode_line(lines[i].as_str()) {
            Some(ev) => {
                evs.push(ev);
                proof {
                    assert(evs.deep_view() =~= decode_stream_spec(lv.take(i + 1)));
                }
            },
            None => {
                proof {
                    assert(evs.deep_view() =~= decode_stream_spec(lv.take(i + 1)));
                }
            },
        }
        i = i + 1;
    }
    proof {
        assert(lv.take(lv.len() as int) =~= lv);
    }
    evs
}

/// How a completed group is recorded on disk.
pub open spec fn group_json_spec(g: GroupCompleteV) -> Seq<char> {
    seq!['{'] + quote_spec("group_name"@) + seq![':'] + quote_spec(g.group_name) + seq![',']
        + quote_spec("benchmarks"@) + seq![':'] + strings_array_spec(g.benchmarks) + seq!['}']
}

impl GroupComplete {
    /// The group record as the stored file's text.
    pub fn to_json(&self) -> (r: String)
        ensures
            r@ == group_json_spec(self@),
    {
        let mut out: Vec<char> = Vec::new();
        append_char(&mut out, '{');
        append_quoted(&mut out, "group_name");
        append_char(&mut out, ':');
        append_quoted(&mut out, self.group_name.as_str());
        append_char(&mut out, ',');
        append_quoted(&mut out, "benchmarks");
        append_char(&mut out, ':');
        append_string_array(&mut out, &self.benchmarks);
        append_char(&mut out, '}');
        proof {
            assert(out@ =~= group_json_spec(self@));
        }
        chars_to_string(&out)
    }
}

} // verus!
