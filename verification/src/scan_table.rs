//! The table of a scaling experiment, as lines of comma-separated fields.

use crate::text;
use vstd::prelude::*;

verus! {

/// One point of a scan. Tokens, operations and loss come as they are to be printed.
#[derive(Debug)]
pub struct ScanPoint {
    pub label: String,
    pub n_layer: usize,
    pub n_embd: usize,
    pub params: usize,
    pub params_non_embedding: usize,
    pub steps: usize,
    pub tokens: String,
    pub compute: String,
    pub loss: String,
}

/// The first line.
pub const SCAN_HEADER: &'static str =
    "axis,label,n_layer,n_embd,params,params_non_embedding,steps,tokens,compute_flops,loss\n";

/// The fields of a point that was measured along an axis.
pub open spec fn fields(axis: Seq<char>, p: ScanPoint) -> Seq<Seq<char>> {
    seq![
        axis,
        p.label@,
        text::digits(p.n_layer as nat),
        text::digits(p.n_embd as nat),
        text::digits(p.params as nat),
        text::digits(p.params_non_embedding as nat),
        text::digits(p.steps as nat),
        p.tokens@,
        p.compute@,
        p.loss@,
    ]
}

/// The first `n` fields with a comma between each two.
pub open spec fn separated(fs: Seq<Seq<char>>, n: nat) -> Seq<char>
    decreases n,
{
    if n == 0 {
        Seq::empty()
    } else if n == 1 {
        fs[0]
    } else {
        separated(fs, (n - 1) as nat) + seq![','] + fs[n - 1]
    }
}

/// A line: its fields and an end.
pub open spec fn line(fs: Seq<Seq<char>>) -> Seq<char> {
    separated(fs, fs.len()) + seq!['\n']
}

/// The lines of the first `n` points of an axis.
pub open spec fn lines(axis: Seq<char>, ps: Seq<ScanPoint>, n: nat) -> Seq<char>
    decreases n,
{
    if n == 0 {
        Seq::empty()
    } else {
        lines(axis, ps, (n - 1) as nat) + line(fields(axis, ps[n - 1]))
    }
}

fn put_field(s: &mut String, field: &str)
    ensures
        final(s)@ == old(s)@ + seq![','] + field@,
{
    proof {
        reveal_strlit(",");
    }
    s.append(",");
    s.append(field);
    assert(s@ =~= old(s)@ + seq![','] + field@);
}

/// Writes one line.
pub fn write_line(axis: &str, p: &ScanPoint) -> (s: String)
    ensures
        s@ == line(fields(axis@, *p)),
{
    let ghost fs = fields(axis@, *p);
    let mut s: String = String::from_str(axis);
    assert(s@ == separated(fs, 1));
    put_field(&mut s, p.label.as_str());
    assert(s@ == separated(fs, 2));
    put_field(&mut s, text::decimal(p.n_layer).as_str());
    assert(s@ == separated(fs, 3));
    put_field(&mut s, text::decimal(p.n_embd).as_str());
    assert(s@ == separated(fs, 4));
    put_field(&mut s, text::decimal(p.params).as_str());
    assert(s@ == separated(fs, 5));
    put_field(&mut s, text::decimal(p.params_non_embedding).as_str());
    assert(s@ == separated(fs, 6));
    put_field(&mut s, text::decimal(p.steps).as_str());
    assert(s@ == separated(fs, 7));
    put_field(&mut s, p.tokens.as_str());
    assert(s@ == separated(fs, 8));
    put_field(&mut s, p.compute.as_str());
    assert(s@ == separated(fs, 9));
    put_field(&mut s, p.loss.as_str());
    assert(s@ == separated(fs, 10));
    proof {
        reveal_strlit("\n");
    }
    s.append("\n");
    assert(s@ =~= line(fs));
    s
}

fn write_lines(s: &mut String, axis: &str, ps: &[ScanPoint])
    ensures
        final(s)@ == old(s)@ + lines(axis@, ps@, ps@.len()),
{
    let ghost before = s@;
    assert(s@ =~= before + lines(axis@, ps@, 0));
    for i in 0..ps.len()
        invariant
            s@ == before + lines(axis@, ps@, i as nat),
    {
        s.append(write_line(axis, &ps[i]).as_str());
        assert(s@ =~= before + lines(axis@, ps@, (i + 1) as nat));
    }
}

/// Writes the table: the points along the number of parameters, then those along the number of
/// tokens.
pub fn scan_table(params: &[ScanPoint], tokens: &[ScanPoint]) -> (s: String)
    ensures
        s@ == SCAN_HEADER@ + lines("params"@, params@, params@.len()) + lines(
            "tokens"@,
            tokens@,
            tokens@.len(),
        ),
{
    let mut s: String = String::from_str(SCAN_HEADER);
    write_lines(&mut s, "params", params);
    write_lines(&mut s, "tokens", tokens);
    s
}

/// How often a character occurs in the first `n` of a text.
pub open spec fn times(s: Seq<char>, c: char, n: nat) -> nat
    decreases n,
{
    if n == 0 {
        0
    } else {
        times(s, c, (n - 1) as nat) + if s[n - 1] == c {
            1nat
        } else {
            0nat
        }
    }
}

proof fn lemma_times_of_concat(a: Seq<char>, b: Seq<char>, c: char, n: nat)
    requires
        n <= b.len(),
    ensures
        times(a + b, c, a.len() + n) == times(a, c, a.len()) + times(b, c, n),
    decreases n,
{
    if n > 0 {
        lemma_times_of_concat(a, b, c, (n - 1) as nat);
        assert((a + b)[a.len() + n - 1] == b[n - 1]);
    } else {
        lemma_times_of_prefix(a, a + b, c, a.len());
    }
}

proof fn lemma_times_of_prefix(a: Seq<char>, b: Seq<char>, c: char, n: nat)
    requires
        n <= a.len() <= b.len(),
        forall|i: int| 0 <= i < a.len() ==> a[i] == b[i],
    ensures
        times(b, c, n) == times(a, c, n),
    decreases n,
{
    if n > 0 {
        lemma_times_of_prefix(a, b, c, (n - 1) as nat);
    }
}

proof fn lemma_times_of_none(s: Seq<char>, c: char, n: nat)
    requires
        n <= s.len(),
        !s.contains(c),
    ensures
        times(s, c, n) == 0,
    decreases n,
{
    if n > 0 {
        lemma_times_of_none(s, c, (n - 1) as nat);
        assert(s.contains(s[n - 1]));
    }
}

/// A line has one comma less than fields, where no field holds one itself: every point fills the
/// same columns.
pub proof fn lines_have_all_columns(fs: Seq<Seq<char>>, n: nat)
    requires
        1 <= n <= fs.len(),
        forall|i: int| 0 <= i < fs.len() ==> !(#[trigger] fs[i]).contains(','),
    ensures
        times(separated(fs, n), ',', separated(fs, n).len()) == n - 1,
    decreases n,
{
    if n == 1 {
        lemma_times_of_none(fs[0], ',', fs[0].len());
    } else {
        let a = separated(fs, (n - 1) as nat);
        let f = fs[n - 1];
        lines_have_all_columns(fs, (n - 1) as nat);
        lemma_times_of_concat(a, seq![','], ',', 1);
        let sep = seq![','];
        assert(times(sep, ',', 1) == times(sep, ',', 0) + 1);
        lemma_times_of_concat(a + sep, f, ',', f.len());
        lemma_times_of_none(f, ',', f.len());
        assert((a + sep).len() == a.len() + 1);
    }
}

} // verus!
