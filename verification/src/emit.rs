//! Writers for the JSON texts this crate produces.  Each writer appends
//! to a character buffer and returns exactly the text its specification
//! function names, so a given value always serializes to the same bytes.
//!
//! Strings are written with `"` and `\` escaped and every other character
//! kept as it is, which is what this crate's readers read back.

use vstd::prelude::*;

use crate::text::str_to_chars;

verus! {

/// How one character is written inside a quoted string.
pub open spec fn esc1(c: char) -> Seq<char> {
    if c == '"' {
        seq!['\\', '"']
    } else if c == '\\' {
        seq!['\\', '\\']
    } else {
        seq![c]
    }
}

/// The escaped body of a quoted string.
pub open spec fn escape_spec(s: Seq<char>) -> Seq<char>
    decreases s.len(),
{
    if s.len() == 0 {
        Seq::empty()
    } else {
        esc1(s[0]) + escape_spec(s.skip(1))
    }
}

pub proof fn lemma_escape_snoc(s: Seq<char>, c: char)
    ensures
        escape_spec(s.push(c)) == escape_spec(s) + esc1(c),
    decreases s.len(),
{
    if s.len() == 0 {
        reveal_with_fuel(escape_spec, 3);
        assert(s.push(c)[0] == c);
        assert(s.push(c).skip(1) =~= Seq::<char>::empty());
        assert(escape_spec(s.push(c)) =~= escape_spec(s) + esc1(c));
    } else {
        lemma_escape_snoc(s.skip(1), c);
        assert(s.push(c).skip(1) =~= s.skip(1).push(c));
        assert(s.push(c)[0] == s[0]);
        assert(escape_spec(s.push(c)) =~= escape_spec(s) + esc1(c));
    }
}

/// A quoted, escaped string.
pub open spec fn quote_spec(s: Seq<char>) -> Seq<char> {
    seq!['"'] + escape_spec(s) + seq!['"']
}

pub fn append_char(out: &mut Vec<char>, c: char)
    ensures
        final(out)@ == old(out)@ + seq![c],
{
    out.push(c);
    assert(final(out)@ =~= old(out)@ + seq![c]);
}

pub fn append_str(out: &mut Vec<char>, s: &str)
    ensures
        final(out)@ == old(out)@ + s@,
{
    let v = str_to_chars(s);
    let mut i: usize = 0;
    while i < v.len()
        invariant
            0 <= i <= v.len(),
            v@ == s@,
            out@ =~= old(out)@ + s@.take(i as int),
        decreases v.len() - i,
    {
        out.push(v[i]);
        assert(out@ =~= old(out)@ + s@.take(i + 1));
        i = i + 1;
    }
    assert(final(out)@ =~= old(out)@ + s@);
}

/// Append `s` as a quoted, escaped JSON string.
pub fn append_quoted(out: &mut Vec<char>, s: &str)
    ensures
        final(out)@ == old(out)@ + quote_spec(s@),
{
    let v = str_to_chars(s);
    out.push('"');
    let mut i: usize = 0;
    while i < v.len()
        invariant
            0 <= i <= v.len(),
            v@ == s@,
            out@ =~= old(out)@ + seq!['"'] + escape_spec(s@.take(i as int)),
        decreases v.len() - i,
    {
        let c = v[i];
        if c == '"' {
            out.push('\\');
            out.push('"');
        } else if c == '\\' {
            out.push('\\');
            out.push('\\');
        } else {
            out.push(c);
        }
        proof {
            lemma_escape_snoc(s@.take(i as int), s@[i as int]);
            assert(s@.take(i as int).push(s@[i as int]) =~= s@.take(i + 1));
            assert(out@ =~= old(out)@ + seq!['"'] + escape_spec(s@.take(i + 1)));
        }
        i = i + 1;
    }
    out.push('"');
    proof {
        assert(s@.take(s@.len() as int) =~= s@);
        assert(final(out)@ =~= old(out)@ + quote_spec(s@));
    }
}

/// The digit character for `d`.
pub open spec fn dec_digit(d: int) -> char {
    if d == 0 {
        '0'
    } else if d == 1 {
        '1'
    } else if d == 2 {
        '2'
    } else if d == 3 {
        '3'
    } else if d == 4 {
        '4'
    } else if d == 5 {
        '5'
    } else if d == 6 {
        '6'
    } else if d == 7 {
        '7'
    } else if d == 8 {
        '8'
    } else {
        '9'
    }
}

/// The decimal digits of `n`, most significant first.
pub open spec fn dec_spec(n: int) -> Seq<char>
    recommends
        n >= 0,
    decreases n,
{
    if n < 10 {
        seq![dec_digit(n)]
    } else {
        dec_spec(n / 10) + seq![dec_digit(n % 10)]
    }
}

fn dec_digit_exec(d: u64) -> (c: char)
    requires
        d < 10,
    ensures
        c == dec_digit(d as int),
{
    if d == 0 {
        '0'
    } else if d == 1 {
        '1'
    } else if d == 2 {
        '2'
    } else if d == 3 {
        '3'
    } else if d == 4 {
        '4'
    } else if d == 5 {
        '5'
    } else if d == 6 {
        '6'
    } else if d == 7 {
        '7'
    } else if d == 8 {
        '8'
    } else {
        '9'
    }
}

/// Append `n` in decimal.
pub fn append_u64(out: &mut Vec<char>, n: u64)
    ensures
        final(out)@ == old(out)@ + dec_spec(n as int),
    decreases n,
{
    if n >= 10 {
        append_u64(out, n / 10);
    }
    out.push(dec_digit_exec(n % 10));
    proof {
        if n < 10 {
            assert(final(out)@ =~= old(out)@ + dec_spec(n as int));
        } else {
            assert(final(out)@ =~= old(out)@ + (dec_spec(n as int / 10) + seq![
                dec_digit(n as int % 10),
            ]));
        }
    }
}

/// The items of a string array, comma separated.
pub open spec fn items_spec(xs: Seq<Seq<char>>) -> Seq<char>
    decreases xs.len(),
{
    if xs.len() == 0 {
        Seq::empty()
    } else if xs.len() == 1 {
        quote_spec(xs[0])
    } else {
        quote_spec(xs[0]) + seq![','] + items_spec(xs.skip(1))
    }
}

/// A JSON array of strings.
pub open spec fn strings_array_spec(xs: Seq<Seq<char>>) -> Seq<char> {
    seq!['['] + items_spec(xs) + seq![']']
}

pub proof fn lemma_items_snoc(xs: Seq<Seq<char>>, x: Seq<char>)
    ensures
        items_spec(xs.push(x)) == if xs.len() == 0 {
            quote_spec(x)
        } else {
            items_spec(xs) + seq![','] + quote_spec(x)
        },
    decreases xs.len(),
{
    if xs.len() == 0 {
        assert(xs.push(x)[0] == x);
        assert(items_spec(xs.push(x)) =~= quote_spec(x));
    } else {
        lemma_items_snoc(xs.skip(1), x);
        assert(xs.push(x).skip(1) =~= xs.skip(1).push(x));
        assert(xs.push(x)[0] == xs[0]);
        if xs.len() == 1 {
            assert(items_spec(xs.push(x)) =~= items_spec(xs) + seq![','] + quote_spec(x));
        } else {
            assert(items_spec(xs.push(x)) =~= items_spec(xs) + seq![','] + quote_spec(x));
        }
    }
}

/// Append `xs` as a JSON array of strings.
pub fn append_string_array(out: &mut Vec<char>, xs: &Vec<String>)
    ensures
        final(out)@ == old(out)@ + strings_array_spec(xs.deep_view()),
{
    out.push('[');
    let ghost dv: Seq<Seq<char>> = xs.deep_view();
    let mut i: usize = 0;
    while i < xs.len()
        invariant
            0 <= i <= xs.len(),
            dv == xs.deep_view(),
            dv.len() == xs.len(),
            out@ =~= old(out)@ + seq!['['] + items_spec(dv.take(i as int)),
        decreases xs.len() - i,
    {
        if i > 0 {
            out.push(',');
        }
        append_quoted(out, xs[i].as_str());
        proof {
            assert(dv[i as int] == xs@[i as int]@);
            lemma_items_snoc(dv.take(i as int), dv[i as int]);
            assert(dv.take(i as int).push(dv[i as int]) =~= dv.take(i + 1));
            assert(out@ =~= old(out)@ + seq!['['] + items_spec(dv.take(i + 1)));
        }
        i = i + 1;
    }
    out.push(']');
    proof {
        assert(dv.take(dv.len() as int) =~= dv);
        assert(final(out)@ =~= old(out)@ + strings_array_spec(dv));
    }
}

/// Extra object fields, each written as `,"key":value` with the value
/// text spliced in untouched.
pub open spec fn fields_tail_spec(fs: Seq<(Seq<char>, Seq<char>)>) -> Seq<char>
    decreases fs.len(),
{
    if fs.len() == 0 {
        Seq::empty()
    } else {
        seq![','] + quote_spec(fs[0].0) + seq![':'] + fs[0].1 + fields_tail_spec(fs.skip(1))
    }
}

pub proof fn lemma_fields_tail_snoc(fs: Seq<(Seq<char>, Seq<char>)>, f: (Seq<char>, Seq<char>))
    ensures
        fields_tail_spec(fs.push(f)) == fields_tail_spec(fs) + (seq![','] + quote_spec(f.0) + seq![
            ':',
        ] + f.1),
    decreases fs.len(),
{
    if fs.len() == 0 {
        reveal_with_fuel(fields_tail_spec, 3);
        assert(fs.push(f)[0] == f);
        assert(fs.push(f).skip(1) =~= Seq::<(Seq<char>, Seq<char>)>::empty());
        assert(fields_tail_spec(fs.push(f)) =~= fields_tail_spec(fs) + (seq![','] + quote_spec(f.0)
            + seq![':'] + f.1));
    } else {
        lemma_fields_tail_snoc(fs.skip(1), f);
        assert(fs.push(f).skip(1) =~= fs.skip(1).push(f));
        assert(fs.push(f)[0] == fs[0]);
        assert(fields_tail_spec(fs.push(f)) =~= fields_tail_spec(fs) + (seq![','] + quote_spec(f.0)
            + seq![':'] + f.1));
    }
}

/// The pairs as the specification sees them.
pub open spec fn pairs_view(v: Seq<(String, String)>) -> Seq<(Seq<char>, Seq<char>)> {
    Seq::new(v.len(), |p: int| (v[p].0@, v[p].1@))
}

/// Append extra object fields, `,"key":value` each.
pub fn append_fields_tail(out: &mut Vec<char>, fs: &Vec<(String, String)>)
    ensures
        final(out)@ == old(out)@ + fields_tail_spec(pairs_view(fs@)),
{
    let ghost dv: Seq<(Seq<char>, Seq<char>)> = pairs_view(fs@);
    proof {
        assert(out@ =~= old(out)@ + fields_tail_spec(dv.take(0)));
    }
    let mut i: usize = 0;
    while i < fs.len()
        invariant
            0 <= i <= fs.len(),
            dv == pairs_view(fs@),
            dv.len() == fs.len(),
            out@ =~= old(out)@ + fields_tail_spec(dv.take(i as int)),
        decreases fs.len() - i,
    {
        out.push(',');
        append_quoted(out, fs[i].0.as_str());
        out.push(':');
        append_str(out, fs[i].1.as_str());
        proof {
            assert(dv[i as int] == (fs@[i as int].0@, fs@[i as int].1@));
            lemma_fields_tail_snoc(dv.take(i as int), dv[i as int]);
            assert(dv.take(i as int).push(dv[i as int]) =~= dv.take(i + 1));
            assert(out@ =~= old(out)@ + fields_tail_spec(dv.take(i + 1)));
        }
        i = i + 1;
    }
    proof {
        assert(dv.take(dv.len() as int) =~= dv);
    }
}

} // verus!
