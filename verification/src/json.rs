//! The grammar of the JSON texts this crate reads: the subprocess's
//! event lines, the per-run manifest, and the global index file.
//!
//! The specification functions in this module *are* the grammar; the
//! executable readers return exactly what they say.  Strings accept the
//! one-character escapes (`\"`, `\\`, `\/`, `\b`, `\f`, `\n`, `\r`, `\t`);
//! a `\u` escape makes the surrounding text unreadable here, and a reader
//! of a single line treats such a line as noise.  Numbers are scanned as a
//! maximal run of number characters and never interpreted.
//!
//! Positions are indices into a sequence of characters.  Every reader
//! either fails or ends strictly past where it began and no later than
//! the end of the text.

use vstd::prelude::*;

use crate::emit::{esc1, escape_spec, items_spec, quote_spec, strings_array_spec};
use crate::text::{is_digit, is_ws, digit_char, ws_char};

verus! {

/// What a one-character escape stands for; `None` for an escape this
/// grammar does not read (`\uXXXX` among them).
pub open spec fn unescape_char(c: char) -> Option<char> {
    if c == '"' {
        Some('"')
    } else if c == '\\' {
        Some('\\')
    } else if c == '/' {
        Some('/')
    } else if c == 'n' {
        Some('\n')
    } else if c == 't' {
        Some('\t')
    } else if c == 'r' {
        Some('\r')
    } else if c == 'b' {
        Some('\u{8}')
    } else if c == 'f' {
        Some('\u{c}')
    } else {
        None
    }
}

fn unescape_char_exec(c: char) -> (r: Option<char>)
    ensures
        r == unescape_char(c),
{
    if c == '"' {
        Some('"')
    } else if c == '\\' {
        Some('\\')
    } else if c == '/' {
        Some('/')
    } else if c == 'n' {
        Some('\n')
    } else if c == 't' {
        Some('\t')
    } else if c == 'r' {
        Some('\r')
    } else if c == 'b' {
        Some('\u{8}')
    } else if c == 'f' {
        Some('\u{c}')
    } else {
        None
    }
}

/// First position at or after `i` that does not hold whitespace.
pub open spec fn skip_ws_spec(s: Seq<char>, i: int) -> int
    decreases s.len() - i,
{
    if 0 <= i < s.len() && is_ws(s[i]) {
        skip_ws_spec(s, i + 1)
    } else {
        i
    }
}

pub proof fn lemma_skip_ws_bounds(s: Seq<char>, i: int)
    requires
        0 <= i <= s.len(),
    ensures
        i <= skip_ws_spec(s, i) <= s.len(),
        skip_ws_spec(s, i) < s.len() ==> !is_ws(s[skip_ws_spec(s, i)]),
    decreases s.len() - i,
{
    if i < s.len() && is_ws(s[i]) {
        lemma_skip_ws_bounds(s, i + 1);
    }
}

pub fn skip_ws(s: &Vec<char>, i: usize) -> (r: usize)
    requires
        i <= s.len(),
    ensures
        r == skip_ws_spec(s@, i as int),
        i <= r <= s.len(),
    decreases s.len() - i,
{
    if i < s.len() && ws_char(s[i]) {
        skip_ws(s, i + 1)
    } else {
        i
    }
}

/// Read a string body starting just after the opening quote: the decoded
/// characters and the position just past the closing quote.
pub open spec fn parse_string_body(s: Seq<char>, i: int) -> Option<(Seq<char>, int)>
    decreases s.len() - i,
{
    if i < 0 || i >= s.len() {
        None
    } else if s[i] == '"' {
        Some((Seq::empty(), i + 1))
    } else if s[i] == '\\' {
        if i + 1 < s.len() {
            match unescape_char(s[i + 1]) {
                None => None,
                Some(c) => match parse_string_body(s, i + 2) {
                    None => None,
                    Some((t, j)) => Some((seq![c] + t, j)),
                },
            }
        } else {
            None
        }
    } else {
        match parse_string_body(s, i + 1) {
            None => None,
            Some((t, j)) => Some((seq![s[i]] + t, j)),
        }
    }
}

pub proof fn lemma_string_body_bounds(s: Seq<char>, i: int)
    requires
        parse_string_body(s, i) is Some,
    ensures
        i < parse_string_body(s, i)->Some_0.1 <= s.len(),
    decreases s.len() - i,
{
    if 0 <= i < s.len() {
        if s[i] == '"' {
        } else if s[i] == '\\' {
            if i + 1 < s.len() && unescape_char(s[i + 1]) is Some {
                lemma_string_body_bounds(s, i + 2);
            }
        } else {
            lemma_string_body_bounds(s, i + 1);
        }
    }
}

fn parse_string_body_exec(s: &Vec<char>, i: usize) -> (r: Option<(Vec<char>, usize)>)
    requires
        i <= s.len(),
    ensures
        match r {
            Some((t, j)) => parse_string_body(s@, i as int) == Some((t@, j as int)) && i < j
                <= s.len(),
            None => parse_string_body(s@, i as int) is None,
        },
    decreases s.len() - i,
{
    if i >= s.len() {
        None
    } else if s[i] == '"' {
        let t: Vec<char> = Vec::new();
        assert(t@ =~= Seq::<char>::empty());
        Some((t, i + 1))
    } else if s[i] == '\\' {
        if i + 1 < s.len() {
            match unescape_char_exec(s[i + 1]) {
                None => None,
                Some(c) => match parse_string_body_exec(s, i + 2) {
                    None => None,
                    Some((t, j)) => {
                        let mut out: Vec<char> = Vec::new();
                        out.push(c);
                        let mut p: usize = 0;
                        while p < t.len()
                            invariant
                                0 <= p <= t.len(),
                                out@ =~= seq![c] + t@.take(p as int),
                            decreases t.len() - p,
                        {
                            out.push(t[p]);
                            assert(out@ =~= seq![c] + t@.take(p + 1));
                            p = p + 1;
                        }
                        assert(out@ =~= seq![c] + t@);
                        Some((out, j))
                    },
                },
            }
        } else {
            None
        }
    } else {
        let c = s[i];
        match parse_string_body_exec(s, i + 1) {
            None => None,
            Some((t, j)) => {
                let mut out: Vec<char> = Vec::new();
                out.push(c);
                let mut p: usize = 0;
                while p < t.len()
                    invariant
                        0 <= p <= t.len(),
                        out@ =~= seq![c] + t@.take(p as int),
                    decreases t.len() - p,
                {
                    out.push(t[p]);
                    assert(out@ =~= seq![c] + t@.take(p + 1));
                    p = p + 1;
                }
                assert(out@ =~= seq![c] + t@);
                Some((out, j))
            },
        }
    }
}

/// A quoted string starting at `i`: its decoded characters and the
/// position just past the closing quote.
pub open spec fn parse_string_spec(s: Seq<char>, i: int) -> Option<(Seq<char>, int)> {
    if 0 <= i < s.len() && s[i] == '"' {
        parse_string_body(s, i + 1)
    } else {
        None
    }
}

pub fn parse_string(s: &Vec<char>, i: usize) -> (r: Option<(Vec<char>, usize)>)
    requires
        i <= s.len(),
    ensures
        match r {
            Some((t, j)) => parse_string_spec(s@, i as int) == Some((t@, j as int)) && i < j
                <= s.len(),
            None => parse_string_spec(s@, i as int) is None,
        },
{
    if i < s.len() && s[i] == '"' {
        parse_string_body_exec(s, i + 1)
    } else {
        None
    }
}

/// A character a number may contain; the scanner takes the maximal run.
pub open spec fn is_num_char(c: char) -> bool {
    is_digit(c) || c == '-' || c == '+' || c == '.' || c == 'e' || c == 'E'
}

fn num_char(c: char) -> (r: bool)
    ensures
        r == is_num_char(c),
{
    digit_char(c) || c == '-' || c == '+' || c == '.' || c == 'e' || c == 'E'
}

/// First position at or after `i` that does not hold a number character.
pub open spec fn num_end(s: Seq<char>, i: int) -> int
    decreases s.len() - i,
{
    if 0 <= i < s.len() && is_num_char(s[i]) {
        num_end(s, i + 1)
    } else {
        i
    }
}

pub proof fn lemma_num_end_bounds(s: Seq<char>, i: int)
    requires
        0 <= i <= s.len(),
    ensures
        i <= num_end(s, i) <= s.len(),
    decreases s.len() - i,
{
    if i < s.len() && is_num_char(s[i]) {
        lemma_num_end_bounds(s, i + 1);
    }
}

fn num_end_exec(s: &Vec<char>, i: usize) -> (r: usize)
    requires
        i <= s.len(),
    ensures
        r == num_end(s@, i as int),
        i <= r <= s.len(),
    decreases s.len() - i,
{
    if i < s.len() && num_char(s[i]) {
        num_end_exec(s, i + 1)
    } else {
        i
    }
}

/// Skip one value starting exactly at `i`: a string, object, array,
/// literal, or number run.
pub open spec fn skip_value_spec(s: Seq<char>, i: int) -> Option<int>
    decreases s.len() - i, 0int,
{
    if i < 0 || i >= s.len() {
        None
    } else if s[i] == '"' {
        match parse_string_body(s, i + 1) {
            None => None,
            Some((t, j)) => Some(j),
        }
    } else if s[i] == '{' {
        match parse_fields_spec(s, i + 1, true) {
            None => None,
            Some((fs, j)) => Some(j),
        }
    } else if s[i] == '[' {
        skip_elems_spec(s, i + 1, true)
    } else if s[i] == 't' {
        if i + 4 <= s.len() && s[i + 1] == 'r' && s[i + 2] == 'u' && s[i + 3] == 'e' {
            Some(i + 4)
        } else {
            None
        }
    } else if s[i] == 'f' {
        if i + 5 <= s.len() && s[i + 1] == 'a' && s[i + 2] == 'l' && s[i + 3] == 's' && s[i + 4]
            == 'e' {
            Some(i + 5)
        } else {
            None
        }
    } else if s[i] == 'n' {
        if i + 4 <= s.len() && s[i + 1] == 'u' && s[i + 2] == 'l' && s[i + 3] == 'l' {
            Some(i + 4)
        } else {
            None
        }
    } else if is_digit(s[i]) || s[i] == '-' {
        Some(num_end(s, i + 1))
    } else {
        None
    }
}

/// The elements of an array, starting just past `[` (or past an element
/// when `first` is false): the position just past the closing bracket.
pub open spec fn skip_elems_spec(s: Seq<char>, i: int, first: bool) -> Option<int>
    decreases s.len() - i, 1int,
{
    let j = skip_ws_spec(s, i);
    if j < i || j >= s.len() {
        None
    } else if s[j] == ']' {
        Some(j + 1)
    } else {
        let k = if first {
            j
        } else {
            if s[j] == ',' {
                skip_ws_spec(s, j + 1)
            } else {
                -1
            }
        };
        if k < j || k >= s.len() {
            None
        } else {
            match skip_value_spec(s, k) {
                None => None,
                Some(e) => if e <= i || e > s.len() {
                    None
                } else {
                    skip_elems_spec(s, e, false)
                },
            }
        }
    }
}

/// The fields of an object, starting just past `{` (or past a field when
/// `first` is false): the field list and the position just past the
/// closing brace.
pub open spec fn parse_fields_spec(s: Seq<char>, i: int, first: bool) -> Option<
    (Seq<(Seq<char>, int, int)>, int),
>
    decreases s.len() - i, 1int,
{
    let j = skip_ws_spec(s, i);
    if j < i || j >= s.len() {
        None
    } else if s[j] == '}' {
        Some((Seq::empty(), j + 1))
    } else {
        let k = if first {
            j
        } else {
            if s[j] == ',' {
                skip_ws_spec(s, j + 1)
            } else {
                -1
            }
        };
        if k < j || k >= s.len() || s[k] != '"' {
            None
        } else {
            match parse_string_body(s, k + 1) {
                None => None,
                Some((key, e1)) => {
                    let c = skip_ws_spec(s, e1);
                    if c < k || c >= s.len() || s[c] != ':' {
                        None
                    } else {
                        let v = skip_ws_spec(s, c + 1);
                        if v <= i || v > s.len() {
                            None
                        } else {
                            match skip_value_spec(s, v) {
                                None => None,
                                Some(e) => if e <= v || e > s.len() {
                                    None
                                } else {
                                    match parse_fields_spec(s, e, false) {
                                        None => None,
                                        Some((fs, end)) => Some(
                                            (seq![(key, v, e)] + fs, end),
                                        ),
                                    }
                                },
                            }
                        }
                    }
                },
            }
        }
    }
}

/// The field list as the specification sees it.
pub open spec fn fields_view(v: Seq<(String, usize, usize)>) -> Seq<(Seq<char>, int, int)> {
    Seq::new(v.len(), |p: int| (v[p].0@, v[p].1 as int, v[p].2 as int))
}

/// Skip one value starting exactly at `i`.
pub fn skip_value(s: &Vec<char>, i: usize) -> (r: Option<usize>)
    requires
        i <= s.len(),
    ensures
        match r {
            Some(e) => skip_value_spec(s@, i as int) == Some(e as int) && i < e <= s.len(),
            None => skip_value_spec(s@, i as int) is None,
        },
    decreases s.len() - i, 0int,
{
    if i >= s.len() {
        return None;
    }
    let c = s[i];
    if c == '"' {
        match parse_string_body_exec(s, i + 1) {
            None => None,
            Some((_t, j)) => Some(j),
        }
    } else if c == '{' {
        match parse_fields(s, i + 1, true) {
            None => None,
            Some((_fs, j)) => Some(j),
        }
    } else if c == '[' {
        skip_elems(s, i + 1, true)
    } else if c == 't' {
        if s.len() - i >= 4 && s[i + 1] == 'r' && s[i + 2] == 'u' && s[i + 3] == 'e' {
            Some(i + 4)
        } else {
            None
        }
    } else if c == 'f' {
        if s.len() - i >= 5 && s[i + 1] == 'a' && s[i + 2] == 'l' && s[i + 3] == 's' && s[i + 4]
            == 'e' {
            Some(i + 5)
        } else {
            None
        }
    } else if c == 'n' {
        if s.len() - i >= 4 && s[i + 1] == 'u' && s[i + 2] == 'l' && s[i + 3] == 'l' {
            Some(i + 4)
        } else {
            None
        }
    } else if digit_char(c) || c == '-' {
        Some(num_end_exec(s, i + 1))
    } else {
        None
    }
}

/// Walk the elements of an array, starting just past `[` (or past an
/// element when `first` is false).
pub fn skip_elems(s: &Vec<char>, i: usize, first: bool) -> (r: Option<usize>)
    requires
        i <= s.len(),
    ensures
        match r {
            Some(e) => skip_elems_spec(s@, i as int, first) == Some(e as int) && i < e <= s.len(),
            None => skip_elems_spec(s@, i as int, first) is None,
        },
    decreases s.len() - i, 1int,
{
    let j = skip_ws(s, i);
    if j >= s.len() {
        return None;
    }
    if s[j] == ']' {
        return Some(j + 1);
    }
    let k: usize = if first {
        j
    } else {
        if s[j] == ',' {
            skip_ws(s, j + 1)
        } else {
            return None;
        }
    };
    if k >= s.len() {
        return None;
    }
    match skip_value(s, k) {
        None => None,
        Some(e) => skip_elems(s, e, false),
    }
}

/// Read the fields of an object, starting just past `{` (or past a field
/// when `first` is false).
pub fn parse_fields(s: &Vec<char>, i: usize, first: bool) -> (r: Option<
    (Vec<(String, usize, usize)>, usize),
>)
    requires
        i <= s.len(),
    ensures
        match r {
            Some((fs, end)) => parse_fields_spec(s@, i as int, first) == Some(
                (fields_view(fs@), end as int),
            ) && i < end <= s.len(),
            None => parse_fields_spec(s@, i as int, first) is None,
        },
    decreases s.len() - i, 1int,
{
    let j = skip_ws(s, i);
    if j >= s.len() {
        return None;
    }
    if s[j] == '}' {
        let fs: Vec<(String, usize, usize)> = Vec::new();
        proof {
            assert(fields_view(fs@) =~= Seq::<(Seq<char>, int, int)>::empty());
        }
        return Some((fs, j + 1));
    }
    let k: usize = if first {
        j
    } else {
        if s[j] == ',' {
            skip_ws(s, j + 1)
        } else {
            return None;
        }
    };
    if k >= s.len() {
        return None;
    }
    if s[k] != '"' {
        return None;
    }
    match parse_string_body_exec(s, k + 1) {
        None => None,
        Some((key, e1)) => {
            let c = skip_ws(s, e1);
            if c >= s.len() {
                return None;
            }
            if s[c] != ':' {
                return None;
            }
            let v = skip_ws(s, c + 1);
            match skip_value(s, v) {
                None => None,
                Some(e) => {
                    match parse_fields(s, e, false) {
                        None => None,
                        Some((rest, end)) => {
                            let key_s = crate::text::chars_to_string(&key);
                            let mut fs: Vec<(String, usize, usize)> = Vec::new();
                            fs.push((key_s, v, e));
                            let mut p: usize = 0;
                            while p < rest.len()
                                invariant
                                    0 <= p <= rest.len(),
                                    fs@.len() == p + 1,
                                    fields_view(fs@) =~= (seq![(key@, v as int, e as int)]
                                        + fields_view(rest@)).take(p + 1),
                                decreases rest.len() - p,
                            {
                                let (a, b, d) = (rest[p].0.clone(), rest[p].1, rest[p].2);
                                fs.push((a, b, d));
                                proof {
                                    assert(fields_view(fs@) =~= (seq![
                                        (key@, v as int, e as int),
                                    ] + fields_view(rest@)).take(p + 2));
                                }
                                p = p + 1;
                            }
                            proof {
                                assert(fields_view(fs@) =~= seq![(key@, v as int, e as int)]
                                    + fields_view(rest@));
                            }
                            Some((fs, end))
                        },
                    }
                },
            }
        },
    }
}

/// Everything the whitespace scan stepped over is whitespace.
pub proof fn lemma_skip_ws_chars(s: Seq<char>, i: int)
    requires
        0 <= i <= s.len(),
    ensures
        forall|p: int| i <= p < skip_ws_spec(s, i) ==> is_ws(#[trigger] s[p]),
    decreases s.len() - i,
{
    if i < s.len() && is_ws(s[i]) {
        lemma_skip_ws_chars(s, i + 1);
    }
}

/// Everything the number scan stepped over is a number character.
pub proof fn lemma_num_end_chars(s: Seq<char>, i: int)
    requires
        0 <= i <= s.len(),
    ensures
        forall|p: int| i <= p < num_end(s, i) ==> is_num_char(#[trigger] s[p]),
        num_end(s, i) < s.len() ==> !is_num_char(s[num_end(s, i)]),
    decreases s.len() - i,
{
    if i < s.len() && is_num_char(s[i]) {
        lemma_num_end_chars(s, i + 1);
    }
}

/// Reading a written string body: just past the opening quote of
/// `quote_spec(x)`, the body parses back to exactly `x` and ends just
/// past the closing quote, whatever follows.
pub proof fn lemma_parse_written_string(u: Seq<char>, x: Seq<char>, v: Seq<char>)
    ensures
        parse_string_body(u + escape_spec(x) + seq!['"'] + v, u.len() as int) == Some(
            (x, u.len() + escape_spec(x).len() + 1int),
        ),
    decreases x.len(),
{
    let s = u + escape_spec(x) + seq!['"'] + v;
    let i = u.len() as int;
    if x.len() == 0 {
        assert(escape_spec(x) =~= Seq::<char>::empty());
        assert(s[i] == '"');
        assert(parse_string_body(s, i) == Some((Seq::<char>::empty(), i + 1)));
        assert(x =~= Seq::<char>::empty());
    } else {
        let c = x[0];
        let rest = x.skip(1);
        assert(escape_spec(x) == esc1(c) + escape_spec(rest));
        let u2 = u + esc1(c);
        lemma_parse_written_string(u2, rest, v);
        assert(u2 + escape_spec(rest) + seq!['"'] + v =~= s);
        if c == '"' {
            assert(s[i] == '\\');
            assert(s[i + 1] == '"');
            assert(unescape_char(s[i + 1]) == Some('"'));
            assert(parse_string_body(s, i + 2) == Some((rest, u.len() + 2 + escape_spec(rest).len()
                + 1int)));
            assert(seq!['"'] + rest =~= x);
        } else if c == '\\' {
            assert(s[i] == '\\');
            assert(s[i + 1] == '\\');
            assert(unescape_char(s[i + 1]) == Some('\\'));
            assert(parse_string_body(s, i + 2) == Some((rest, u.len() + 2 + escape_spec(rest).len()
                + 1int)));
            assert(seq!['\\'] + rest =~= x);
        } else {
            assert(s[i] == c);
            assert(s[i] != '"' && s[i] != '\\');
            assert(parse_string_body(s, i + 1) == Some((rest, u.len() + 1 + escape_spec(rest).len()
                + 1int)));
            assert(seq![c] + rest =~= x);
        }
    }
}

/// If everything from `i` to `w` is whitespace and `w` holds none (or
/// is the end), the whitespace scan from `i` stops exactly at `w`.
pub proof fn lemma_skip_ws_at(s: Seq<char>, i: int, w: int)
    requires
        0 <= i <= w <= s.len(),
        forall|p: int| i <= p < w ==> is_ws(#[trigger] s[p]),
        w < s.len() ==> !is_ws(s[w]),
    ensures
        skip_ws_spec(s, i) == w,
    decreases w - i,
{
    if i < w {
        lemma_skip_ws_at(s, i + 1, w);
    }
}

/// The number-scan twin of [`lemma_skip_ws_at`].
pub proof fn lemma_num_end_at(s: Seq<char>, i: int, w: int)
    requires
        0 <= i <= w <= s.len(),
        forall|p: int| i <= p < w ==> is_num_char(#[trigger] s[p]),
        w < s.len() ==> !is_num_char(s[w]),
    ensures
        num_end(s, i) == w,
    decreases w - i,
{
    if i < w {
        lemma_num_end_at(s, i + 1, w);
    }
}

/// A string body reads the same wherever its text stands.
pub proof fn lemma_string_body_translate(s1: Seq<char>, i1: int, s2: Seq<char>, i2: int)
    requires
        parse_string_body(s1, i1) is Some,
        0 <= i1,
        0 <= i2,
        i2 + (parse_string_body(s1, i1)->Some_0.1 - i1) <= s2.len(),
        forall|p: int|
            i1 <= p < parse_string_body(s1, i1)->Some_0.1 ==> s2[p + (i2 - i1)] == #[trigger] s1[p],
    ensures
        parse_string_body(s2, i2) == Some(
            (
                parse_string_body(s1, i1)->Some_0.0,
                i2 + (parse_string_body(s1, i1)->Some_0.1 - i1),
            ),
        ),
    decreases s1.len() - i1,
{
    lemma_string_body_bounds(s1, i1);
    let (t, j1) = parse_string_body(s1, i1)->Some_0;
    let d = i2 - i1;
    assert(s2[i2] == s1[i1]);
    if s1[i1] == '"' {
    } else if s1[i1] == '\\' {
        lemma_string_body_bounds(s1, i1 + 2);
        assert(i1 + 2 < j1);
        assert(s2[i2 + 1] == s1[i1 + 1]);
        lemma_string_body_translate(s1, i1 + 2, s2, i2 + 2);
    } else {
        lemma_string_body_translate(s1, i1 + 1, s2, i2 + 1);
    }
}

/// The fields of one parse, with every span shifted by `d`.
pub open spec fn shift_fields(fs: Seq<(Seq<char>, int, int)>, d: int) -> Seq<(Seq<char>, int, int)> {
    Seq::new(fs.len(), |k: int| (fs[k].0, fs[k].1 + d, fs[k].2 + d))
}

/// A whole value reads the same wherever its text stands, as long as a
/// number cannot run on past it.
pub proof fn lemma_skip_value_translate(s1: Seq<char>, i1: int, s2: Seq<char>, i2: int)
    requires
        skip_value_spec(s1, i1) is Some,
        0 <= i1,
        0 <= i2,
        i2 + (skip_value_spec(s1, i1)->Some_0 - i1) <= s2.len(),
        forall|p: int|
            i1 <= p < skip_value_spec(s1, i1)->Some_0 ==> s2[p + (i2 - i1)] == #[trigger] s1[p],
        i2 + (skip_value_spec(s1, i1)->Some_0 - i1) < s2.len() ==> !is_num_char(
            s2[i2 + (skip_value_spec(s1, i1)->Some_0 - i1)],
        ),
    ensures
        skip_value_spec(s2, i2) == Some(i2 + (skip_value_spec(s1, i1)->Some_0 - i1)),
    decreases s1.len() - i1, 0int,
{
    lemma_skip_value_bounds(s1, i1);
    let j1 = skip_value_spec(s1, i1)->Some_0;
    let d = i2 - i1;
    let c = s1[i1];
    assert(s2[i2] == c);
    if c == '"' {
        lemma_string_body_bounds(s1, i1 + 1);
        lemma_string_body_translate(s1, i1 + 1, s2, i2 + 1);
    } else if c == '{' {
        lemma_parse_fields_translate(s1, i1 + 1, true, s2, i2 + 1);
    } else if c == '[' {
        lemma_skip_elems_translate(s1, i1 + 1, true, s2, i2 + 1);
    } else if c == 't' || c == 'f' || c == 'n' {
        assert(s2[i2 + 1] == s1[i1 + 1]);
        assert(s2[i2 + 2] == s1[i1 + 2]);
        assert(s2[i2 + 3] == s1[i1 + 3]);
        if c == 'f' {
            assert(s2[i2 + 4] == s1[i1 + 4]);
        }
    } else {
        assert(is_digit(c) || c == '-');
        lemma_num_end_bounds(s1, i1 + 1);
        lemma_num_end_chars(s1, i1 + 1);
        assert forall|p: int| i2 + 1 <= p < j1 + d implies is_num_char(#[trigger] s2[p]) by {
            assert(s2[p] == s1[p - d]);
        }
        lemma_num_end_at(s2, i2 + 1, j1 + d);
    }
}

/// Array elements read the same wherever their text stands.
pub proof fn lemma_skip_elems_translate(s1: Seq<char>, i1: int, first: bool, s2: Seq<char>, i2: int)
    requires
        skip_elems_spec(s1, i1, first) is Some,
        0 <= i1,
        0 <= i2,
        i2 + (skip_elems_spec(s1, i1, first)->Some_0 - i1) <= s2.len(),
        forall|p: int|
            i1 <= p < skip_elems_spec(s1, i1, first)->Some_0 ==> s2[p + (i2 - i1)]
                == #[trigger] s1[p],
    ensures
        skip_elems_spec(s2, i2, first) == Some(i2 + (skip_elems_spec(s1, i1, first)->Some_0 - i1)),
    decreases s1.len() - i1, 1int,
{
    lemma_skip_elems_bounds(s1, i1, first);
    let j1 = skip_elems_spec(s1, i1, first)->Some_0;
    let d = i2 - i1;
    let j = skip_ws_spec(s1, i1);
    lemma_skip_ws_bounds(s1, i1);
    lemma_skip_ws_chars(s1, i1);
    if s1[j] == ']' {
        assert(j1 == j + 1);
        assert forall|p: int| i2 <= p < j + d implies is_ws(#[trigger] s2[p]) by {
            assert(s2[p] == s1[p - d]);
        }
        assert(s2[j + d] == s1[j]);
        lemma_skip_ws_at(s2, i2, j + d);
    } else {
        let k = if first {
            j
        } else {
            skip_ws_spec(s1, j + 1)
        };
        assert(s1[j] == ',' || first);
        if !first {
            lemma_skip_ws_bounds(s1, j + 1);
            lemma_skip_ws_chars(s1, j + 1);
        }
        let e = skip_value_spec(s1, k)->Some_0;
        lemma_skip_value_bounds(s1, k);
        assert(e < j1) by {
            lemma_skip_elems_bounds(s1, e, false);
        }
        assert(j < j1 && k < j1);
        assert forall|p: int| i2 <= p < j + d implies is_ws(#[trigger] s2[p]) by {
            assert(s2[p] == s1[p - d]);
        }
        assert(s2[j + d] == s1[j]);
        lemma_skip_ws_at(s2, i2, j + d);
        if !first {
            assert forall|p: int| j + 1 + d <= p < k + d implies is_ws(#[trigger] s2[p]) by {
                assert(s2[p] == s1[p - d]);
            }
            assert(s2[k + d] == s1[k]);
            lemma_skip_ws_at(s2, j + 1 + d, k + d);
        }
        // whatever follows the element is never a number character
        let j2 = skip_ws_spec(s1, e);
        lemma_skip_ws_bounds(s1, e);
        lemma_skip_ws_chars(s1, e);
        assert(!is_num_char(s1[e])) by {
            if j2 > e {
                assert(is_ws(s1[e]));
            } else {
                assert(s1[e] == ']' || s1[e] == ',');
            }
        }
        assert(s2[e + d] == s1[e]);
        lemma_skip_value_translate(s1, k, s2, k + d);
        lemma_skip_elems_translate(s1, e, false, s2, e + d);
    }
}

/// Object fields read the same wherever their text stands; the spans
/// come back shifted along with the text.
#[verifier::rlimit(80)]
pub proof fn lemma_parse_fields_translate(
    s1: Seq<char>,
    i1: int,
    first: bool,
    s2: Seq<char>,
    i2: int,
)
    requires
        parse_fields_spec(s1, i1, first) is Some,
        0 <= i1,
        0 <= i2,
        i2 + (parse_fields_spec(s1, i1, first)->Some_0.1 - i1) <= s2.len(),
        forall|p: int|
            i1 <= p < parse_fields_spec(s1, i1, first)->Some_0.1 ==> s2[p + (i2 - i1)]
                == #[trigger] s1[p],
    ensures
        parse_fields_spec(s2, i2, first) == Some(
            (
                shift_fields(parse_fields_spec(s1, i1, first)->Some_0.0, i2 - i1),
                i2 + (parse_fields_spec(s1, i1, first)->Some_0.1 - i1),
            ),
        ),
    decreases s1.len() - i1, 1int,
{
    lemma_parse_fields_bounds(s1, i1, first);
    let (fs1, j1) = parse_fields_spec(s1, i1, first)->Some_0;
    let d = i2 - i1;
    let j = skip_ws_spec(s1, i1);
    lemma_skip_ws_bounds(s1, i1);
    lemma_skip_ws_chars(s1, i1);
    if s1[j] == '}' {
        assert(j1 == j + 1);
        assert forall|p: int| i2 <= p < j + d implies is_ws(#[trigger] s2[p]) by {
            assert(s2[p] == s1[p - d]);
        }
        assert(s2[j + d] == s1[j]);
        lemma_skip_ws_at(s2, i2, j + d);
        assert(shift_fields(fs1, d) =~= Seq::<(Seq<char>, int, int)>::empty());
    } else {
        let k = if first {
            j
        } else {
            skip_ws_spec(s1, j + 1)
        };
        if !first {
            lemma_skip_ws_bounds(s1, j + 1);
            lemma_skip_ws_chars(s1, j + 1);
        }
        assert(s1[k] == '"');
        let (key, e1) = parse_string_body(s1, k + 1)->Some_0;
        lemma_string_body_bounds(s1, k + 1);
        let cpos = skip_ws_spec(s1, e1);
        lemma_skip_ws_bounds(s1, e1);
        lemma_skip_ws_chars(s1, e1);
        assert(s1[cpos] == ':');
        let v = skip_ws_spec(s1, cpos + 1);
        lemma_skip_ws_bounds(s1, cpos + 1);
        lemma_skip_ws_chars(s1, cpos + 1);
        let e = skip_value_spec(s1, v)->Some_0;
        lemma_skip_value_bounds(s1, v);
        assert(e < j1) by {
            lemma_parse_fields_bounds(s1, e, false);
        }
        assert(j < j1 && k < j1 && e1 <= j1 && cpos < j1 && v < j1);
        assert forall|p: int| i2 <= p < j + d implies is_ws(#[trigger] s2[p]) by {
            assert(s2[p] == s1[p - d]);
        }
        assert(s2[j + d] == s1[j]);
        lemma_skip_ws_at(s2, i2, j + d);
        if !first {
            assert forall|p: int| j + 1 + d <= p < k + d implies is_ws(#[trigger] s2[p]) by {
                assert(s2[p] == s1[p - d]);
            }
            assert(s2[k + d] == s1[k]);
            lemma_skip_ws_at(s2, j + 1 + d, k + d);
        }
        lemma_string_body_translate(s1, k + 1, s2, k + 1 + d);
        assert forall|p: int| e1 + d <= p < cpos + d implies is_ws(#[trigger] s2[p]) by {
            assert(s2[p] == s1[p - d]);
        }
        assert(s2[cpos + d] == s1[cpos]);
        lemma_skip_ws_at(s2, e1 + d, cpos + d);
        assert forall|p: int| cpos + 1 + d <= p < v + d implies is_ws(#[trigger] s2[p]) by {
            assert(s2[p] == s1[p - d]);
        }
        assert(s2[v + d] == s1[v]);
        lemma_skip_ws_at(s2, cpos + 1 + d, v + d);
        // whatever follows the value is never a number character
        let j2 = skip_ws_spec(s1, e);
        lemma_skip_ws_bounds(s1, e);
        lemma_skip_ws_chars(s1, e);
        assert(!is_num_char(s1[e])) by {
            if j2 > e {
                assert(is_ws(s1[e]));
            } else {
                assert(s1[e] == '}' || s1[e] == ',');
            }
        }
        assert(s2[e + d] == s1[e]);
        lemma_skip_value_translate(s1, v, s2, v + d);
        lemma_parse_fields_translate(s1, e, false, s2, e + d);
        let (rest1, _) = parse_fields_spec(s1, e, false)->Some_0;
        assert(fs1 == seq![(key, v, e)] + rest1);
        assert(shift_fields(fs1, d) =~= seq![(key, v + d, e + d)] + shift_fields(rest1, d));
    }
}

/// A written string array, element by element after the first: a comma
/// and a quoted string each, then the closing bracket.
pub open spec fn arr_tail_text(ids: Seq<Seq<char>>) -> Seq<char>
    decreases ids.len(),
{
    if ids.len() == 0 {
        seq![']']
    } else {
        seq![','] + quote_spec(ids[0]) + arr_tail_text(ids.skip(1))
    }
}

proof fn lemma_items_as_tail(ids: Seq<Seq<char>>)
    ensures
        items_spec(ids) + seq![']'] == if ids.len() == 0 {
            seq![']']
        } else {
            quote_spec(ids[0]) + arr_tail_text(ids.skip(1))
        },
    decreases ids.len(),
{
    if ids.len() == 0 {
        assert(items_spec(ids) + seq![']'] =~= seq![']']);
    } else if ids.len() == 1 {
        assert(ids.skip(1).len() == 0);
        reveal_with_fuel(arr_tail_text, 2);
        reveal_with_fuel(items_spec, 2);
        assert(items_spec(ids) == quote_spec(ids[0]));
        assert(arr_tail_text(ids.skip(1)) =~= seq![']']);
        assert(items_spec(ids) + seq![']'] =~= quote_spec(ids[0]) + arr_tail_text(ids.skip(1)));
    } else {
        lemma_items_as_tail(ids.skip(1));
        assert(ids.skip(1)[0] == ids[1]);
        assert(ids.skip(1).skip(1) =~= ids.skip(2));
        let q0 = quote_spec(ids[0]);
        let tail1 = items_spec(ids.skip(1)) + seq![']'];
        assert(items_spec(ids) + seq![']'] =~= q0 + seq![','] + tail1);
        assert(tail1 == quote_spec(ids[1]) + arr_tail_text(ids.skip(2)));
        assert(arr_tail_text(ids.skip(1)) == seq![','] + quote_spec(ids[1]) + arr_tail_text(
            ids.skip(2),
        ));
        assert(q0 + seq![','] + tail1 =~= q0 + arr_tail_text(ids.skip(1)));
    }
}

/// Walking a written array tail: from a position where the text is
/// `,"x1","x2",...]`, the element walk consumes exactly that text.
proof fn lemma_skip_written_arr_tail(s: Seq<char>, pos: int, ids: Seq<Seq<char>>)
    requires
        0 <= pos,
        pos + arr_tail_text(ids).len() <= s.len(),
        forall|p: int|
            pos <= p < pos + arr_tail_text(ids).len() ==> #[trigger] s[p] == arr_tail_text(ids)[p
                - pos],
    ensures
        skip_elems_spec(s, pos, false) == Some(pos + arr_tail_text(ids).len()),
    decreases ids.len(),
{
    if ids.len() == 0 {
        assert(s[pos] == ']');
        lemma_skip_ws_at(s, pos, pos);
    } else {
        let q = quote_spec(ids[0]);
        let rest = arr_tail_text(ids.skip(1));
        assert(arr_tail_text(ids) == seq![','] + q + rest);
        assert(s[pos] == ',');
        assert(s[pos + 1] == '"') by {
            assert(arr_tail_text(ids)[1] == q[0]);
        }
        lemma_skip_ws_at(s, pos, pos);
        lemma_skip_ws_at(s, pos + 1, pos + 1);
        let k = pos + 1;
        lemma_parse_written_string(s.take(k + 1), ids[0], s.skip(k + 1 + escape_spec(
            ids[0],
        ).len() + 1));
        assert(s.take(k + 1) + escape_spec(ids[0]) + seq!['"'] + s.skip(k + 1 + escape_spec(
            ids[0],
        ).len() + 1) =~= s) by {
            assert forall|p: int|
                0 <= p < q.len() implies s[k + p] == q[p] by {
                assert(arr_tail_text(ids)[1 + p] == q[p]);
            }
        }
        assert(parse_string_body(s, k + 1) == Some((ids[0], k + q.len())));
        let e = k + q.len();
        assert(skip_value_spec(s, k) == Some(e));
        assert forall|p: int|
            e <= p < e + rest.len() implies #[trigger] s[p] == rest[p - e] by {
            assert(arr_tail_text(ids)[p - pos] == rest[p - e]);
        }
        lemma_skip_written_arr_tail(s, e, ids.skip(1));
        assert(skip_elems_spec(s, pos, false) == Some(pos + arr_tail_text(ids).len()));
    }
}

/// A written string array is consumed exactly, wherever it stands.
pub proof fn lemma_skip_written_array(s: Seq<char>, pos: int, ids: Seq<Seq<char>>)
    requires
        0 <= pos,
        pos + strings_array_spec(ids).len() <= s.len(),
        forall|p: int|
            pos <= p < pos + strings_array_spec(ids).len() ==> #[trigger] s[p]
                == strings_array_spec(ids)[p - pos],
    ensures
        skip_value_spec(s, pos) == Some(pos + strings_array_spec(ids).len()),
{
    let arr = strings_array_spec(ids);
    assert(s[pos] == '[');
    lemma_items_as_tail(ids);
    if ids.len() == 0 {
        assert(arr =~= seq!['['] + seq![']']);
        assert(s[pos + 1] == ']');
        lemma_skip_ws_at(s, pos + 1, pos + 1);
        assert(skip_elems_spec(s, pos + 1, true) == Some(pos + 2));
    } else {
        let q = quote_spec(ids[0]);
        let rest = arr_tail_text(ids.skip(1));
        assert(items_spec(ids) + seq![']'] == q + rest);
        assert(arr =~= seq!['['] + (items_spec(ids) + seq![']']));
        assert(arr =~= seq!['['] + q + rest);
        let k = pos + 1;
        assert(s[k] == '"') by {
            assert(arr[1] == q[0]);
        }
        lemma_skip_ws_at(s, k, k);
        lemma_parse_written_string(s.take(k + 1), ids[0], s.skip(k + 1 + escape_spec(
            ids[0],
        ).len() + 1));
        assert(s.take(k + 1) + escape_spec(ids[0]) + seq!['"'] + s.skip(k + 1 + escape_spec(
            ids[0],
        ).len() + 1) =~= s) by {
            assert forall|p: int|
                0 <= p < q.len() implies s[k + p] == q[p] by {
                assert(arr[1 + p] == q[p]);
            }
        }
        assert(parse_string_body(s, k + 1) == Some((ids[0], k + q.len())));
        let e = k + q.len();
        assert(skip_value_spec(s, k) == Some(e));
        assert forall|p: int|
            e <= p < e + rest.len() implies #[trigger] s[p] == rest[p - e] by {
            assert(arr[p - pos] == rest[p - e]);
        }
        lemma_skip_written_arr_tail(s, e, ids.skip(1));
        assert(skip_elems_spec(s, pos + 1, true) == Some(pos + arr.len()));
    }
}

pub proof fn lemma_skip_value_bounds(s: Seq<char>, i: int)
    requires
        skip_value_spec(s, i) is Some,
    ensures
        i < skip_value_spec(s, i)->Some_0 <= s.len(),
    decreases s.len() - i, 0int,
{
    if 0 <= i < s.len() {
        if s[i] == '"' {
            lemma_string_body_bounds(s, i + 1);
        } else if s[i] == '{' {
            lemma_parse_fields_bounds(s, i + 1, true);
        } else if s[i] == '[' {
            lemma_skip_elems_bounds(s, i + 1, true);
        } else if is_digit(s[i]) || s[i] == '-' {
            if !(s[i] == 't' || s[i] == 'f' || s[i] == 'n') {
                lemma_num_end_bounds(s, i + 1);
            }
        }
    }
}

pub proof fn lemma_skip_elems_bounds(s: Seq<char>, i: int, first: bool)
    requires
        skip_elems_spec(s, i, first) is Some,
    ensures
        i < skip_elems_spec(s, i, first)->Some_0 <= s.len(),
    decreases s.len() - i, 1int,
{
    let j = skip_ws_spec(s, i);
    if j >= i && j < s.len() {
        if s[j] == ']' {
        } else {
            let k = if first {
                j
            } else {
                if s[j] == ',' {
                    skip_ws_spec(s, j + 1)
                } else {
                    -1
                }
            };
            if k >= j && k < s.len() {
                if skip_value_spec(s, k) is Some {
                    let e = skip_value_spec(s, k)->Some_0;
                    lemma_skip_value_bounds(s, k);
                    if e > i && e <= s.len() {
                        lemma_skip_elems_bounds(s, e, false);
                    }
                }
            }
        }
    }
}

pub proof fn lemma_parse_fields_bounds(s: Seq<char>, i: int, first: bool)
    requires
        parse_fields_spec(s, i, first) is Some,
    ensures
        i < parse_fields_spec(s, i, first)->Some_0.1 <= s.len(),
        forall|p: int|
            0 <= p < parse_fields_spec(s, i, first)->Some_0.0.len() ==> {
                let f = #[trigger] parse_fields_spec(s, i, first)->Some_0.0[p];
                i <= f.1 < f.2 <= s.len() && skip_value_spec(s, f.1) == Some(f.2)
            },
    decreases s.len() - i, 1int,
{
    let j = skip_ws_spec(s, i);
    if j >= i && j < s.len() {
        if s[j] == '}' {
        } else {
            let k = if first {
                j
            } else {
                if s[j] == ',' {
                    skip_ws_spec(s, j + 1)
                } else {
                    -1
                }
            };
            if k >= j && k < s.len() && s[k] == '"' {
                if parse_string_body(s, k + 1) is Some {
                    let (key, e1) = parse_string_body(s, k + 1)->Some_0;
                    lemma_string_body_bounds(s, k + 1);
                    let c = skip_ws_spec(s, e1);
                    if c >= k && c < s.len() && s[c] == ':' {
                        let v = skip_ws_spec(s, c + 1);
                        if v > i && v <= s.len() {
                            if skip_value_spec(s, v) is Some {
                                let e = skip_value_spec(s, v)->Some_0;
                                lemma_skip_value_bounds(s, v);
                                if e > v && e <= s.len() {
                                    lemma_parse_fields_bounds(s, e, false);
                                }
                            }
                        }
                    }
                }
            }
        }
    }
}

} // verus!
