//! The records the database keeps: the per-run manifest with its system
//! descriptor, the global index file, and the commit record the graph
//! view consumes.
//!
//! The system descriptor is data the core stores but never interprets;
//! the adapter descriptor inside it is carried as the raw text of one
//! JSON value and spliced into the manifest untouched.

use vstd::prelude::*;

use crate::emit::{
    append_char, append_fields_tail, append_quoted, append_str, append_string_array, append_u64,
    dec_spec, fields_tail_spec, pairs_view, quote_spec, strings_array_spec,
};
use crate::json::{skip_value, skip_value_spec};
use crate::text::{chars_to_string, str_to_chars};

verus! {

/// Text that is exactly one JSON value, fit to splice into a larger
/// object.
pub open spec fn valid_value_text(r: Seq<char>) -> bool {
    skip_value_spec(r, 0) == Some(r.len() as int)
}

/// Is this text exactly one JSON value?
pub fn check_value_text(r: &str) -> (ok: bool)
    ensures
        ok == valid_value_text(r@),
{
    let v = str_to_chars(r);
    match skip_value(&v, 0) {
        Some(e) => e == v.len(),
        None => false,
    }
}

/// One processor, as the system query reports it.
pub struct CpuInfo {
    pub name: String,
    pub vendor_id: String,
    pub brand: String,
    pub frequency: u64,
}

pub struct CpuInfoV {
    pub name: Seq<char>,
    pub vendor_id: Seq<char>,
    pub brand: Seq<char>,
    pub frequency: u64,
}

impl View for CpuInfo {
    type V = CpuInfoV;

    open spec fn view(&self) -> CpuInfoV {
        CpuInfoV {
            name: self.name@,
            vendor_id: self.vendor_id@,
            brand: self.brand@,
            frequency: self.frequency,
        }
    }
}

impl DeepView for CpuInfo {
    type V = CpuInfoV;

    open spec fn deep_view(&self) -> CpuInfoV {
        self.view()
    }
}

/// How one processor is written into the manifest.
pub open spec fn cpu_json_spec(c: CpuInfoV) -> Seq<char> {
    seq!['{'] + quote_spec("name"@) + seq![':'] + quote_spec(c.name) + seq![','] + quote_spec(
        "vendor_id"@,
    ) + seq![':'] + quote_spec(c.vendor_id) + seq![','] + quote_spec("brand"@) + seq![':']
        + quote_spec(c.brand) + seq![','] + quote_spec("frequency"@) + seq![':'] + dec_spec(
        c.frequency as int,
    ) + seq!['}']
}

fn append_cpu(out: &mut Vec<char>, c: &CpuInfo)
    ensures
        final(out)@ == old(out)@ + cpu_json_spec(c@),
{
    append_char(out, '{');
    append_quoted(out, "name");
    append_char(out, ':');
    append_quoted(out, c.name.as_str());
    append_char(out, ',');
    append_quoted(out, "vendor_id");
    append_char(out, ':');
    append_quoted(out, c.vendor_id.as_str());
    append_char(out, ',');
    append_quoted(out, "brand");
    append_char(out, ':');
    append_quoted(out, c.brand.as_str());
    append_char(out, ',');
    append_quoted(out, "frequency");
    append_char(out, ':');
    append_u64(out, c.frequency);
    append_char(out, '}');
    proof {
        assert(final(out)@ =~= old(out)@ + cpu_json_spec(c@));
    }
}

/// The processors, comma separated.
pub open spec fn cpu_items_spec(cs: Seq<CpuInfoV>) -> Seq<char>
    decreases cs.len(),
{
    if cs.len() == 0 {
        Seq::empty()
    } else if cs.len() == 1 {
        cpu_json_spec(cs[0])
    } else {
        cpu_json_spec(cs[0]) + seq![','] + cpu_items_spec(cs.skip(1))
    }
}

/// The processor list as a JSON array.
pub open spec fn cpus_array_spec(cs: Seq<CpuInfoV>) -> Seq<char> {
    seq!['['] + cpu_items_spec(cs) + seq![']']
}

proof fn lemma_cpu_items_snoc(cs: Seq<CpuInfoV>, c: CpuInfoV)
    ensures
        cpu_items_spec(cs.push(c)) == if cs.len() == 0 {
            cpu_json_spec(c)
        } else {
            cpu_items_spec(cs) + seq![','] + cpu_json_spec(c)
        },
    decreases cs.len(),
{
    if cs.len() == 0 {
        reveal_with_fuel(cpu_items_spec, 3);
        assert(cs.push(c)[0] == c);
        assert(cpu_items_spec(cs.push(c)) =~= cpu_json_spec(c));
    } else {
        lemma_cpu_items_snoc(cs.skip(1), c);
        assert(cs.push(c).skip(1) =~= cs.skip(1).push(c));
        assert(cs.push(c)[0] == cs[0]);
        if cs.len() == 1 {
            assert(cpu_items_spec(cs.push(c)) =~= cpu_items_spec(cs) + seq![','] + cpu_json_spec(
                c,
            ));
        } else {
            assert(cpu_items_spec(cs.push(c)) =~= cpu_items_spec(cs) + seq![','] + cpu_json_spec(
                c,
            ));
        }
    }
}

fn append_cpus(out: &mut Vec<char>, cs: &Vec<CpuInfo>)
    ensures
        final(out)@ == old(out)@ + cpus_array_spec(cs.deep_view()),
{
    out.push('[');
    let ghost dv: Seq<CpuInfoV> = cs.deep_view();
    let mut i: usize = 0;
    proof {
        assert(out@ =~= old(out)@ + seq!['['] + cpu_items_spec(dv.take(0)));
    }
    while i < cs.len()
        invariant
            0 <= i <= cs.len(),
            dv == cs.deep_view(),
            dv.len() == cs.len(),
            out@ =~= old(out)@ + seq!['['] + cpu_items_spec(dv.take(i as int)),
        decreases cs.len() - i,
    {
        if i > 0 {
            out.push(',');
        }
        append_cpu(out, &cs[i]);
        proof {
            assert(dv[i as int] == cs@[i as int]@);
            lemma_cpu_items_snoc(dv.take(i as int), dv[i as int]);
            assert(dv.take(i as int).push(dv[i as int]) =~= dv.take(i + 1));
            assert(out@ =~= old(out)@ + seq!['['] + cpu_items_spec(dv.take(i + 1)));
        }
        i = i + 1;
    }
    out.push(']');
    proof {
        assert(dv.take(dv.len() as int) =~= dv);
        assert(final(out)@ =~= old(out)@ + cpus_array_spec(dv));
    }
}

/// The machine a run was measured on.  The adapter descriptor is the raw
/// text of one JSON value, produced and read by collaborators outside
/// the core and stored verbatim.
pub struct SystemInfo {
    pub kernel_version: Option<String>,
    pub os_version: String,
    pub distribution_id: String,
    pub arch: String,
    /// Bytes of memory.
    pub memory: u64,
    pub cpus: Vec<CpuInfo>,
    pub wgpu_adapter_info: String,
}

pub struct SystemInfoV {
    pub kernel_version: Option<Seq<char>>,
    pub os_version: Seq<char>,
    pub distribution_id: Seq<char>,
    pub arch: Seq<char>,
    pub memory: u64,
    pub cpus: Seq<CpuInfoV>,
    pub wgpu_adapter_info: Seq<char>,
}

impl View for SystemInfo {
    type V = SystemInfoV;

    open spec fn view(&self) -> SystemInfoV {
        SystemInfoV {
            kernel_version: self.kernel_version.deep_view(),
            os_version: self.os_version@,
            distribution_id: self.distribution_id@,
            arch: self.arch@,
            memory: self.memory,
            cpus: self.cpus.deep_view(),
            wgpu_adapter_info: self.wgpu_adapter_info@,
        }
    }
}

/// An optional string, written as a string or `null`.
pub open spec fn opt_string_json(o: Option<Seq<char>>) -> Seq<char> {
    match o {
        None => "null"@,
        Some(s) => quote_spec(s),
    }
}

/// The manifest fields a system descriptor contributes, in order.  An
/// adapter descriptor that is not one whole JSON value is stored as
/// `null` instead, so the manifest always stays readable.
pub open spec fn sysinfo_fields_spec(s: SystemInfoV) -> Seq<(Seq<char>, Seq<char>)> {
    seq![
        ("kernel_version"@, opt_string_json(s.kernel_version)),
        ("os_version"@, quote_spec(s.os_version)),
        ("distribution_id"@, quote_spec(s.distribution_id)),
        ("arch"@, quote_spec(s.arch)),
        ("memory"@, dec_spec(s.memory as int)),
        ("cpus"@, cpus_array_spec(s.cpus)),
        (
            "wgpu_adapter_info"@,
            if valid_value_text(s.wgpu_adapter_info) {
                s.wgpu_adapter_info
            } else {
                "null"@
            },
        ),
    ]
}

impl SystemInfo {
    /// This descriptor as manifest fields: each a key and the raw text
    /// of its value.
    pub fn to_fields(&self) -> (fs: Vec<(String, String)>)
        ensures
            pairs_view(fs@) == sysinfo_fields_spec(self@),
    {
        let mut fs: Vec<(String, String)> = Vec::new();
        let kv: String = match &self.kernel_version {
            Some(k) => {
                let mut v: Vec<char> = Vec::new();
                append_quoted(&mut v, k.as_str());
                chars_to_string(&v)
            },
            None => "null".to_owned(),
        };
        fs.push(("kernel_version".to_owned(), kv));
        let mut v: Vec<char> = Vec::new();
        append_quoted(&mut v, self.os_version.as_str());
        fs.push(("os_version".to_owned(), chars_to_string(&v)));
        let mut v: Vec<char> = Vec::new();
        append_quoted(&mut v, self.distribution_id.as_str());
        fs.push(("distribution_id".to_owned(), chars_to_string(&v)));
        let mut v: Vec<char> = Vec::new();
        append_quoted(&mut v, self.arch.as_str());
        fs.push(("arch".to_owned(), chars_to_string(&v)));
        let mut v: Vec<char> = Vec::new();
        append_u64(&mut v, self.memory);
        fs.push(("memory".to_owned(), chars_to_string(&v)));
        let mut v: Vec<char> = Vec::new();
        append_cpus(&mut v, &self.cpus);
        fs.push(("cpus".to_owned(), chars_to_string(&v)));
        let adapter: String = if check_value_text(self.wgpu_adapter_info.as_str()) {
            self.wgpu_adapter_info.clone()
        } else {
            "null".to_owned()
        };
        fs.push(("wgpu_adapter_info".to_owned(), adapter));
        proof {
            assert(pairs_view(fs@) =~= sysinfo_fields_spec(self@));
        }
        fs
    }
}

/// The text of a run manifest: the commit, the run name, the system
/// descriptor's fields spliced in, and the benchmark ids.
pub open spec fn manifest_json_spec(
    h: Seq<char>,
    n: Seq<char>,
    sys: Seq<(Seq<char>, Seq<char>)>,
    ids: Seq<Seq<char>>,
) -> Seq<char> {
    seq!['{'] + quote_spec("commit_hash"@) + seq![':'] + quote_spec(h) + seq![','] + quote_spec(
        "name"@,
    ) + seq![':'] + quote_spec(n) + fields_tail_spec(sys) + seq![','] + quote_spec("benchmarks"@)
        + seq![':'] + strings_array_spec(ids) + seq!['}']
}

/// Write a run manifest from its parts.
pub fn manifest_json(h: &str, n: &str, sys: &Vec<(String, String)>, ids: &Vec<String>) -> (r:
    String)
    ensures
        r@ == manifest_json_spec(h@, n@, pairs_view(sys@), ids.deep_view()),
{
    let mut out: Vec<char> = Vec::new();
    append_char(&mut out, '{');
    append_quoted(&mut out, "commit_hash");
    append_char(&mut out, ':');
    append_quoted(&mut out, h);
    append_char(&mut out, ',');
    append_quoted(&mut out, "name");
    append_char(&mut out, ':');
    append_quoted(&mut out, n);
    append_fields_tail(&mut out, sys);
    append_char(&mut out, ',');
    append_quoted(&mut out, "benchmarks");
    append_char(&mut out, ':');
    append_string_array(&mut out, ids);
    append_char(&mut out, '}');
    proof {
        assert(out@ =~= manifest_json_spec(h@, n@, pairs_view(sys@), ids.deep_view()));
    }
    chars_to_string(&out)
}

/// The authoritative description of one run: which benchmarks exist in
/// it, for which commit, on which machine.
pub struct RunManifest {
    pub commit_hash: String,
    pub name: String,
    pub system: SystemInfo,
    /// List of benchmark IDs executed in this run
    pub benchmarks: Vec<String>,
}

impl RunManifest {
    /// The manifest file's text; it belongs at
    /// `<commit_hash>/<name>/run.json` under the database root.
    pub fn save(&self) -> (r: String)
        ensures
            r@ == manifest_json_spec(
                self.commit_hash@,
                self.name@,
                sysinfo_fields_spec(self.system@),
                self.benchmarks.deep_view(),
            ),
    {
        let sys = self.system.to_fields();
        manifest_json(
            self.commit_hash.as_str(),
            self.name.as_str(),
            &sys,
            &self.benchmarks,
        )
    }
}

/// No string appears twice.
pub open spec fn distinct_strs(ns: Seq<Seq<char>>) -> bool {
    forall|p: int, q: int| 0 <= p < q < ns.len() ==> ns[p] != ns[q]
}

/// A well-formed index: one entry per commit, one mention per run name.
pub open spec fn index_wf(bs: Seq<(Seq<char>, Seq<Seq<char>>)>) -> bool {
    &&& forall|i: int, j: int|
        0 <= i < j < bs.len() ==> (#[trigger] bs[i]).0 != (#[trigger] bs[j]).0
    &&& forall|i: int| 0 <= i < bs.len() ==> distinct_strs((#[trigger] bs[i]).1)
}

/// Whether the index has an entry for commit `h`.
pub open spec fn has_entry(bs: Seq<(Seq<char>, Seq<Seq<char>>)>, h: Seq<char>) -> bool {
    exists|i: int| 0 <= i < bs.len() && (#[trigger] bs[i]).0 == h
}

/// Where the first entry for commit `h` sits.
pub open spec fn entry_index(bs: Seq<(Seq<char>, Seq<Seq<char>>)>, h: Seq<char>) -> int
    decreases bs.len(),
{
    if bs.len() == 0 {
        0
    } else if bs[0].0 == h {
        0
    } else {
        1 + entry_index(bs.skip(1), h)
    }
}

pub proof fn lemma_entry_index(bs: Seq<(Seq<char>, Seq<Seq<char>>)>, h: Seq<char>)
    requires
        has_entry(bs, h),
    ensures
        0 <= entry_index(bs, h) < bs.len(),
        bs[entry_index(bs, h)].0 == h,
        forall|j: int| 0 <= j < entry_index(bs, h) ==> (#[trigger] bs[j]).0 != h,
    decreases bs.len(),
{
    if bs.len() > 0 && bs[0].0 != h {
        assert(has_entry(bs.skip(1), h)) by {
            let i = choose|i: int| 0 <= i < bs.len() && (#[trigger] bs[i]).0 == h;
            assert(bs.skip(1)[i - 1] == bs[i]);
        }
        lemma_entry_index(bs.skip(1), h);
        assert forall|j: int| 0 <= j < entry_index(bs, h) implies (#[trigger] bs[j]).0 != h by {
            if j > 0 {
                assert(bs[j] == bs.skip(1)[j - 1]);
            }
        }
    }
}

/// Whether the index already records run `n` for commit `h`.
pub open spec fn contains_run(
    bs: Seq<(Seq<char>, Seq<Seq<char>>)>,
    h: Seq<char>,
    n: Seq<char>,
) -> bool {
    exists|i: int| 0 <= i < bs.len() && (#[trigger] bs[i]).0 == h && bs[i].1.contains(n)
}

/// What recording `(h, n)` does to the index: nothing when the pair is
/// already there, otherwise `n` joins `h`'s names (or a fresh entry).
pub open spec fn record_run_spec(
    bs: Seq<(Seq<char>, Seq<Seq<char>>)>,
    h: Seq<char>,
    n: Seq<char>,
) -> Seq<(Seq<char>, Seq<Seq<char>>)> {
    if !has_entry(bs, h) {
        bs.push((h, seq![n]))
    } else {
        let i = entry_index(bs, h);
        if bs[i].1.contains(n) {
            bs
        } else {
            bs.update(i, (h, bs[i].1.push(n)))
        }
    }
}

/// The global index: which run names have data for which commits.
/// Saved as `db.json` at the database root.
pub struct DbManifest {
    pub benches: Vec<(String, Vec<String>)>,
}

impl View for DbManifest {
    type V = Seq<(Seq<char>, Seq<Seq<char>>)>;

    open spec fn view(&self) -> Seq<(Seq<char>, Seq<Seq<char>>)> {
        Seq::new(self.benches@.len(), |i: int| (self.benches@[i].0@, self.benches@[i].1.deep_view()))
    }
}

/// One index entry: the commit, then its run names.
pub open spec fn index_entry_spec(e: (Seq<char>, Seq<Seq<char>>)) -> Seq<char> {
    quote_spec(e.0) + seq![':'] + strings_array_spec(e.1)
}

/// The entries, comma separated.
pub open spec fn index_items_spec(bs: Seq<(Seq<char>, Seq<Seq<char>>)>) -> Seq<char>
    decreases bs.len(),
{
    if bs.len() == 0 {
        Seq::empty()
    } else if bs.len() == 1 {
        index_entry_spec(bs[0])
    } else {
        index_entry_spec(bs[0]) + seq![','] + index_items_spec(bs.skip(1))
    }
}

/// The index file's whole text.
pub open spec fn index_json_spec(bs: Seq<(Seq<char>, Seq<Seq<char>>)>) -> Seq<char> {
    seq!['{'] + index_items_spec(bs) + seq!['}']
}

proof fn lemma_index_items_snoc(bs: Seq<(Seq<char>, Seq<Seq<char>>)>, e: (Seq<char>, Seq<Seq<char>>))
    ensures
        index_items_spec(bs.push(e)) == if bs.len() == 0 {
            index_entry_spec(e)
        } else {
            index_items_spec(bs) + seq![','] + index_entry_spec(e)
        },
    decreases bs.len(),
{
    if bs.len() == 0 {
        reveal_with_fuel(index_items_spec, 3);
        assert(bs.push(e)[0] == e);
        assert(index_items_spec(bs.push(e)) =~= index_entry_spec(e));
    } else {
        lemma_index_items_snoc(bs.skip(1), e);
        assert(bs.push(e).skip(1) =~= bs.skip(1).push(e));
        assert(bs.push(e)[0] == bs[0]);
        if bs.len() == 1 {
            assert(index_items_spec(bs.push(e)) =~= index_items_spec(bs) + seq![',']
                + index_entry_spec(e));
        } else {
            assert(index_items_spec(bs.push(e)) =~= index_items_spec(bs) + seq![',']
                + index_entry_spec(e));
        }
    }
}

pub enum IndexError {
    Malformed,
}

impl DbManifest {
    /// The empty index.
    pub fn new() -> (m: DbManifest)
        ensures
            m@ == Seq::<(Seq<char>, Seq<Seq<char>>)>::empty(),
    {
        let m = DbManifest { benches: Vec::new() };
        proof {
            assert(m@ =~= Seq::<(Seq<char>, Seq<Seq<char>>)>::empty());
        }
        m
    }

    /// The index file's text, to be stored as `db.json`.
    pub fn save(&self) -> (r: String)
        ensures
            r@ == index_json_spec(self@),
    {
        let mut out: Vec<char> = Vec::new();
        out.push('{');
        let ghost bv: Seq<(Seq<char>, Seq<Seq<char>>)> = self@;
        let mut i: usize = 0;
        proof {
            assert(out@ =~= seq!['{'] + index_items_spec(bv.take(0)));
        }
        while i < self.benches.len()
            invariant
                0 <= i <= self.benches.len(),
                bv == self@,
                bv.len() == self.benches.len(),
                out@ =~= seq!['{'] + index_items_spec(bv.take(i as int)),
            decreases self.benches.len() - i,
        {
            if i > 0 {
                out.push(',');
            }
            append_quoted(&mut out, self.benches[i].0.as_str());
            append_char(&mut out, ':');
            append_string_array(&mut out, &self.benches[i].1);
            proof {
                let ghost ii = i as int;
                assert(bv[ii] == (self.benches@[ii].0@, self.benches@[ii].1.deep_view()));
                lemma_index_items_snoc(bv.take(i as int), bv[i as int]);
                assert(bv.take(i as int).push(bv[i as int]) =~= bv.take(i + 1));
                assert(out@ =~= seq!['{'] + index_items_spec(bv.take(i + 1)));
            }
            i = i + 1;
        }
        out.push('}');
        proof {
            assert(bv.take(bv.len() as int) =~= bv);
            assert(out@ =~= index_json_spec(bv));
        }
        chars_to_string(&out)
    }
}

/// Does the list mention this string?
pub fn contains_str(v: &Vec<String>, x: &str) -> (r: bool)
    ensures
        r == v.deep_view().contains(x@),
{
    let mut i: usize = 0;
    while i < v.len()
        invariant
            0 <= i <= v.len(),
            forall|j: int| 0 <= j < i ==> v.deep_view()[j] != x@,
        decreases v.len() - i,
    {
        proof {
            assert(v.deep_view()[i as int] == v@[i as int]@);
        }
        if crate::text::str_eq(v[i].as_str(), x) {
            assert(v.deep_view()[i as int] == x@);
            return true;
        }
        i = i + 1;
    }
    proof {
        if v.deep_view().contains(x@) {
            let j = choose|j: int| 0 <= j < v.deep_view().len() && v.deep_view()[j] == x@;
        }
    }
    false
}

/// The names with later repeats dropped, first mentions kept in order.
pub open spec fn dedup_names(ns: Seq<Seq<char>>) -> Seq<Seq<char>>
    decreases ns.len(),
{
    if ns.len() == 0 {
        Seq::empty()
    } else {
        let prefix = ns.take(ns.len() - 1);
        dedup_names(prefix) + (if prefix.contains(ns.last()) {
            Seq::empty()
        } else {
            seq![ns.last()]
        })
    }
}

fn dedup_names_exec(ns: &Vec<String>) -> (r: Vec<String>)
    ensures
        r.deep_view() == dedup_names(ns.deep_view()),
{
    let ghost nv: Seq<Seq<char>> = ns.deep_view();
    let mut r: Vec<String> = Vec::new();
    let mut seen: Vec<String> = Vec::new();
    let mut i: usize = 0;
    proof {
        assert(nv.take(0) =~= Seq::<Seq<char>>::empty());
        assert(r.deep_view() =~= dedup_names(nv.take(0)));
        assert(seen.deep_view() =~= nv.take(0));
    }
    while i < ns.len()
        invariant
            0 <= i <= ns.len(),
            nv == ns.deep_view(),
            nv.len() == ns.len(),
            seen.deep_view() == nv.take(i as int),
            r.deep_view() == dedup_names(nv.take(i as int)),
        decreases ns.len() - i,
    {
        proof {
            assert(nv[i as int] == ns@[i as int]@);
            assert(nv.take(i + 1).take(i as int) =~= nv.take(i as int));
            assert(nv.take(i + 1).last() == nv[i as int]);
        }
        let is_seen = contains_str(&seen, ns[i].as_str());
        if !is_seen {
            r.push(ns[i].clone());
        }
        seen.push(ns[i].clone());
        proof {
            assert(seen.deep_view() =~= nv.take(i + 1));
            assert(r.deep_view() =~= dedup_names(nv.take(i + 1)));
        }
        i = i + 1;
    }
    proof {
        assert(nv.take(nv.len() as int) =~= nv);
    }
    r
}

/// Dropping repeats leaves each name once, and no name appears or
/// disappears.
pub proof fn lemma_dedup_names_props(ns: Seq<Seq<char>>)
    ensures
        distinct_strs(dedup_names(ns)),
        forall|y: Seq<char>| #[trigger] dedup_names(ns).contains(y) <==> ns.contains(y),
    decreases ns.len(),
{
    if ns.len() == 0 {
        assert forall|y: Seq<char>| #[trigger] dedup_names(ns).contains(y) <==> ns.contains(
            y,
        ) by {
            if dedup_names(ns).contains(y) {
                let i = choose|i: int| 0 <= i < dedup_names(ns).len() && dedup_names(ns)[i] == y;
            }
            if ns.contains(y) {
                let i = choose|i: int| 0 <= i < ns.len() && ns[i] == y;
            }
        }
    } else {
        let prefix = ns.take(ns.len() - 1);
        let last = ns.last();
        lemma_dedup_names_props(prefix);
        let d0 = dedup_names(prefix);
        let d = dedup_names(ns);
        let added = !prefix.contains(last);
        assert(d == d0 + (if added {
            seq![last]
        } else {
            Seq::<Seq<char>>::empty()
        }));
        assert forall|y: Seq<char>| #[trigger] d.contains(y) <==> ns.contains(y) by {
            if d.contains(y) {
                let i = choose|i: int| 0 <= i < d.len() && d[i] == y;
                if i < d0.len() {
                    assert(d0[i] == y);
                    assert(d0.contains(y));
                    assert(prefix.contains(y));
                    let w = choose|w: int| 0 <= w < prefix.len() && prefix[w] == y;
                    assert(ns[w] == y);
                    assert(ns.contains(y));
                } else {
                    assert(y == last);
                    assert(ns[ns.len() - 1] == y);
                    assert(ns.contains(y));
                }
            }
            if ns.contains(y) {
                let i = choose|i: int| 0 <= i < ns.len() && ns[i] == y;
                if i < ns.len() - 1 {
                    assert(prefix[i] == y);
                    assert(prefix.contains(y));
                    assert(d0.contains(y));
                    let w = choose|w: int| 0 <= w < d0.len() && d0[w] == y;
                    assert(d[w] == y);
                    assert(d.contains(y));
                } else {
                    assert(y == last);
                    if added {
                        assert(d[d0.len() as int] == y);
                        assert(d.contains(y));
                    } else {
                        assert(prefix.contains(y));
                        assert(d0.contains(y));
                        let w = choose|w: int| 0 <= w < d0.len() && d0[w] == y;
                        assert(d[w] == y);
                        assert(d.contains(y));
                    }
                }
            }
        }
        assert forall|p: int, q: int| 0 <= p < q < d.len() implies d[p] != d[q] by {
            if q < d0.len() {
                assert(d0[p] == d[p] && d0[q] == d[q]);
            } else {
                // q names the freshly added last, which the prefix lacks
                assert(added);
                assert(d[q] == last);
                assert(d0[p] == d[p]);
                assert(d0.contains(d[p]));
                assert(prefix.contains(d[p]));
                if d[p] == last {
                    assert(prefix.contains(last));
                }
            }
        }
    }
}

/// Replacing or adding one entry keeps the index well-formed.
pub proof fn lemma_upsert_entry_wf(
    bs: Seq<(Seq<char>, Seq<Seq<char>>)>,
    h: Seq<char>,
    ns: Seq<Seq<char>>,
)
    requires
        index_wf(bs),
        distinct_strs(ns),
    ensures
        index_wf(upsert_entry(bs, h, ns)),
{
    let u = upsert_entry(bs, h, ns);
    if has_entry(bs, h) {
        lemma_entry_index(bs, h);
        let i = entry_index(bs, h);
        assert forall|a: int, b: int|
            0 <= a < b < u.len() implies (#[trigger] u[a]).0 != (#[trigger] u[b]).0 by {
            assert(u[a].0 == bs[a].0);
            assert(u[b].0 == bs[b].0);
        }
        assert forall|a: int| 0 <= a < u.len() implies distinct_strs((#[trigger] u[a]).1) by {
            if a != i {
                assert(u[a] == bs[a]);
            }
        }
    } else {
        assert forall|a: int, b: int|
            0 <= a < b < u.len() implies (#[trigger] u[a]).0 != (#[trigger] u[b]).0 by {
            if b == bs.len() {
                if u[a].0 == h {
                    assert(bs[a].0 == h);
                    assert(has_entry(bs, h));
                }
            }
        }
        assert forall|a: int| 0 <= a < u.len() implies distinct_strs((#[trigger] u[a]).1) by {
            if a < bs.len() {
                assert(u[a] == bs[a]);
            }
        }
    }
}

/// Replace the names under commit `h`, or add the entry if it is new.
pub open spec fn upsert_entry(
    bs: Seq<(Seq<char>, Seq<Seq<char>>)>,
    h: Seq<char>,
    ns: Seq<Seq<char>>,
) -> Seq<(Seq<char>, Seq<Seq<char>>)> {
    if has_entry(bs, h) {
        bs.update(entry_index(bs, h), (h, ns))
    } else {
        bs.push((h, ns))
    }
}

fn upsert_entry_exec(bs: &mut Vec<(String, Vec<String>)>, h: String, ns: Vec<String>)
    ensures
        Seq::new(final(bs)@.len(), |i: int| (final(bs)@[i].0@, final(bs)@[i].1.deep_view()))
            == upsert_entry(
            Seq::new(old(bs)@.len(), |i: int| (old(bs)@[i].0@, old(bs)@[i].1.deep_view())),
            h@,
            ns.deep_view(),
        ),
{
    let ghost bv: Seq<(Seq<char>, Seq<Seq<char>>)> = Seq::new(
        bs@.len(),
        |i: int| (bs@[i].0@, bs@[i].1.deep_view()),
    );
    let ghost nv: Seq<Seq<char>> = ns.deep_view();
    let mut i: usize = 0;
    while i < bs.len()
        invariant
            0 <= i <= bs.len(),
            bs@ == old(bs)@,
            bv == Seq::new(bs@.len(), |i: int| (bs@[i].0@, bs@[i].1.deep_view())),
            bv.len() == bs.len(),
            nv == ns.deep_view(),
            forall|j: int| 0 <= j < i ==> (#[trigger] bv[j]).0 != h@,
        decreases bs.len() - i,
    {
        proof {
            assert(bv[i as int].0 == bs@[i as int].0@);
        }
        if crate::text::str_eq(bs[i].0.as_str(), h.as_str()) {
            proof {
                assert(has_entry(bv, h@));
            }
            bs.remove(i);
            bs.insert(i, (h, ns));
            proof {
                lemma_entry_index(bv, h@);
                let fi = entry_index(bv, h@);
                assert(fi == i) by {
                    if fi < i {
                        assert(bv[fi].0 != h@);
                    }
                    if fi > i {
                        assert(bv[i as int].0 != h@);
                    }
                }
                assert(Seq::new(bs@.len(), |k: int| (bs@[k].0@, bs@[k].1.deep_view()))
                    =~= bv.update(i as int, (h@, nv)));
            }
            return ;
        }
        i = i + 1;
    }
    bs.push((h, ns));
    proof {
        assert(!has_entry(bv, h@));
        assert(Seq::new(bs@.len(), |k: int| (bs@[k].0@, bs@[k].1.deep_view())) =~= bv.push(
            (h@, nv),
        ));
    }
}

/// Fold the index file's fields into entries, later entries for the
/// same commit replacing earlier ones, repeats within a name list
/// dropped.
pub open spec fn index_fold(
    s: Seq<char>,
    fs: Seq<(Seq<char>, int, int)>,
    acc: Seq<(Seq<char>, Seq<Seq<char>>)>,
) -> Option<Seq<(Seq<char>, Seq<Seq<char>>)>>
    decreases fs.len(),
{
    if fs.len() == 0 {
        Some(acc)
    } else {
        match crate::events::span_strings(s, fs[0].1, fs[0].2) {
            None => None,
            Some(ns) => index_fold(s, fs.skip(1), upsert_entry(acc, fs[0].0, dedup_names(ns))),
        }
    }
}

/// What the index file's text holds: a whole JSON object whose every
/// value is an array of strings.
pub open spec fn parse_index_spec(s: Seq<char>) -> Option<Seq<(Seq<char>, Seq<Seq<char>>)>> {
    let i = crate::json::skip_ws_spec(s, 0);
    if !(0 <= i < s.len() && s[i] == '{') {
        None
    } else {
        match crate::json::parse_fields_spec(s, i + 1, true) {
            None => None,
            Some((fs, e)) => {
                if crate::json::skip_ws_spec(s, e) != s.len() {
                    None
                } else {
                    index_fold(s, fs, Seq::empty())
                }
            },
        }
    }
}

pub enum IndexLoadError {
    Malformed,
}

impl DbManifest {
    /// Build the index from the file's text, or fresh when the file is
    /// absent.  A text that is not an object of string arrays is
    /// refused.
    pub fn load_or_init(content: Option<&str>) -> (r: Result<DbManifest, IndexLoadError>)
        ensures
            match content {
                None => r matches Ok(m) && m@ == Seq::<(Seq<char>, Seq<Seq<char>>)>::empty(),
                Some(t) => match parse_index_spec(t@) {
                    Some(bs) => r matches Ok(m) && m@ == bs,
                    None => r is Err,
                },
            },
            r matches Ok(m) ==> index_wf(m@),
    {
        let text = match content {
            None => {
                return Ok(DbManifest::new());
            },
            Some(t) => t,
        };
        let s = str_to_chars(text);
        let i = crate::json::skip_ws(&s, 0);
        if i >= s.len() {
            return Err(IndexLoadError::Malformed);
        }
        if s[i] != '{' {
            return Err(IndexLoadError::Malformed);
        }
        let (fs, e) = match crate::json::parse_fields(&s, i + 1, true) {
            None => {
                return Err(IndexLoadError::Malformed);
            },
            Some(r) => r,
        };
        if crate::json::skip_ws(&s, e) != s.len() {
            return Err(IndexLoadError::Malformed);
        }
        let ghost fv = crate::json::fields_view(fs@);
        let mut m = DbManifest::new();
        let mut p: usize = 0;
        proof {
            assert(fv.skip(0) =~= fv);
        }
        while p < fs.len()
            invariant
                0 <= p <= fs.len(),
                s@ == text@,
                content == Some(text),
                parse_index_spec(text@) == index_fold(s@, fv, Seq::empty()),
                fv == crate::json::fields_view(fs@),
                fv.len() == fs.len(),
                index_fold(s@, fv, Seq::empty()) == index_fold(s@, fv.skip(p as int), m@),
                index_wf(m@),
            decreases fs.len() - p,
        {
            proof {
                let ghost pp = p as int;
                assert(fv.skip(pp)[0] == fv[pp]);
                assert(fv.skip(pp).skip(1) =~= fv.skip(pp + 1));
                assert(fv[pp] == (fs@[pp].0@, fs@[pp].1 as int, fs@[pp].2 as int));
            }
            let names = match crate::events::span_strings_exec(&s, fs[p].1, fs[p].2) {
                None => {
                    return Err(IndexLoadError::Malformed);
                },
                Some(ns) => ns,
            };
            let ghost before = m@;
            let ghost raw_names = names.deep_view();
            let names = dedup_names_exec(&names);
            upsert_entry_exec(&mut m.benches, fs[p].0.clone(), names);
            proof {
                lemma_dedup_names_props(raw_names);
                lemma_upsert_entry_wf(before, fs@[p as int].0@, dedup_names(raw_names));
            }
            p = p + 1;
        }
        proof {
            assert(fv.skip(fv.len() as int) =~= Seq::<(Seq<char>, int, int)>::empty());
        }
        Ok(m)
    }
}

/// One commit of the tracked history, as the graph view records it.
pub struct CommitRecord {
    pub hash: String,
    pub parents: Vec<String>,
    pub date: String,
    pub author: String,
    pub refs: String,
    pub message: String,
    pub branches: Vec<String>,
    pub column: Option<usize>,
    pub color: Option<String>,
}

} // verus!
