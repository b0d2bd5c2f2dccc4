//! Lists on the command line: grids of model sizes, multiples, capacity factors.

use crate::chars;
use crate::float_bits;
use vstd::prelude::*;

verus! {

/// What is wrong with a list.
#[derive(Clone, Copy, Debug, PartialEq, Eq, Structural)]
pub enum GridFault {
    /// A size has no `x` between its two numbers.
    NoSeparator,
    /// The number of layers is no whole number.
    BadLayers,
    /// The width is no whole number.
    BadWidth,
    /// A number that must be at least one is zero.
    TooSmall,
    /// An element is no number.
    NotANumber,
    /// A factor is negative.
    Negative,
    /// The list holds nothing.
    Empty,
}

/// A list that was refused, and the element that is to blame.
#[derive(Clone, Debug)]
pub struct GridError {
    pub fault: GridFault,
    pub piece: String,
}

/// What reading a list may come to.
pub enum Outcome<T> {
    Accepted(Seq<T>),
    Refused(GridFault, Seq<char>),
}

/// Whether a result is this outcome.
pub open spec fn gives<T>(r: Result<Vec<T>, GridError>, o: Outcome<T>) -> bool {
    match o {
        Outcome::Accepted(v) => r is Ok && r->Ok_0@ == v,
        Outcome::Refused(fault, piece) => r is Err && r->Err_0.fault == fault && r->Err_0.piece@
            == piece,
    }
}

/// Whether a character separates layers from width.
pub open spec fn separates(c: char) -> bool {
    c == 'x' || c == 'X' || c == '*'
}

/// The first separator at or after `i`; the length where there is none.
pub open spec fn separator(s: Seq<char>, i: int) -> int
    decreases s.len() - i,
{
    if 0 <= i < s.len() && !separates(s[i]) {
        separator(s, i + 1)
    } else {
        i
    }
}

/// A size, read.
pub open spec fn size_of(s: Seq<char>) -> Result<(usize, usize), GridFault> {
    let at = separator(s, 0);
    if at >= s.len() {
        Err(GridFault::NoSeparator)
    } else {
        match (
            chars::number(chars::trimmed(s.take(at))),
            chars::number(chars::trimmed(s.skip(at + 1))),
        ) {
            (None, _) => Err(GridFault::BadLayers),
            (_, None) => Err(GridFault::BadWidth),
            (Some(l), Some(d)) => if l >= 1 && d >= 1 {
                Ok((l, d))
            } else {
                Err(GridFault::TooSmall)
            },
        }
    }
}

/// The sizes of the first `n` pieces, up to the first that is refused.
pub open spec fn sizes_of(pieces: Seq<Seq<char>>, n: nat) -> Outcome<(usize, usize)>
    decreases n,
{
    if n == 0 {
        Outcome::Accepted(Seq::empty())
    } else {
        match sizes_of(pieces, (n - 1) as nat) {
            Outcome::Accepted(v) => match size_of(pieces[n - 1]) {
                Ok(size) => Outcome::Accepted(v.push(size)),
                Err(fault) => Outcome::Refused(fault, pieces[n - 1]),
            },
            refused => refused,
        }
    }
}

/// The whole grid: refused where a piece is, or where there is none.
pub open spec fn size_grid(s: Seq<char>) -> Outcome<(usize, usize)> {
    let pieces = chars::pieces(s);
    if pieces.len() == 0 {
        Outcome::Refused(GridFault::Empty, Seq::empty())
    } else {
        sizes_of(pieces, pieces.len())
    }
}

proof fn lemma_refusals_stay(pieces: Seq<Seq<char>>, a: nat, b: nat)
    requires
        a <= b,
        sizes_of(pieces, a) is Refused,
    ensures
        sizes_of(pieces, b) == sizes_of(pieces, a),
    decreases b,
{
    if a < b {
        lemma_refusals_stay(pieces, a, (b - 1) as nat);
    }
}

fn parse_size(s: &str) -> (r: Result<(usize, usize), GridFault>)
    ensures
        r == size_of(s@),
{
    let n: usize = s.unicode_len();
    let mut at: usize = 0;
    while at < n
        invariant
            n == s@.len(),
            at <= n,
            separator(s@, 0) == separator(s@, at as int),
        decreases n - at,
    {
        let c: char = s.get_char(at);
        if c == 'x' || c == 'X' || c == '*' {
            assert(s@.subrange(0, at as int) =~= s@.take(at as int));
            assert(s@.subrange(at + 1, n as int) =~= s@.skip(at + 1));
            let layers: Option<usize> = chars::parse_number(
                chars::trim(s.substring_char(0, at)),
            );
            let width: Option<usize> = chars::parse_number(
                chars::trim(s.substring_char(at + 1, n)),
            );
            return match (layers, width) {
                (None, _) => Err(GridFault::BadLayers),
                (_, None) => Err(GridFault::BadWidth),
                (Some(l), Some(d)) => if l >= 1 && d >= 1 {
                    Ok((l, d))
                } else {
                    Err(GridFault::TooSmall)
                },
            };
        }
        at += 1;
    }
    Err(GridFault::NoSeparator)
}

/// Reads a grid of sizes such as `2x64,4x128`: layers and widths.
pub fn parse_sizes(spec: &str) -> (r: Result<Vec<(usize, usize)>, GridError>)
    ensures
        gives(r, size_grid(spec@)),
{
    let pieces: Vec<String> = chars::split_list(spec);
    let ghost ps = chars::pieces(spec@);
    assert(pieces@.len() == chars::texts(pieces@).len());
    if pieces.len() == 0 {
        return Err(GridError { fault: GridFault::Empty, piece: String::new() });
    }
    let mut out: Vec<(usize, usize)> = Vec::new();
    for i in 0..pieces.len()
        invariant
            chars::texts(pieces@) == ps,
            ps == chars::pieces(spec@),
            ps.len() > 0,
            sizes_of(ps, i as nat) == Outcome::Accepted(out@),
    {
        assert(chars::texts(pieces@)[i as int] == pieces@[i as int]@);
        match parse_size(pieces[i].as_str()) {
            Ok(size) => {
                out.push(size);
            },
            Err(fault) => {
                proof {
                    lemma_refusals_stay(ps, (i + 1) as nat, ps.len());
                }
                return Err(GridError { fault, piece: pieces[i].clone() });
            },
        }
    }
    Ok(out)
}

/// The numbers of the first `n` pieces, up to the first that is none.
pub open spec fn numbers_of(pieces: Seq<Seq<char>>, n: nat) -> Outcome<usize>
    decreases n,
{
    if n == 0 {
        Outcome::Accepted(Seq::empty())
    } else {
        match numbers_of(pieces, (n - 1) as nat) {
            Outcome::Accepted(v) => match chars::number(pieces[n - 1]) {
                Some(x) => Outcome::Accepted(v.push(x)),
                None => Outcome::Refused(GridFault::NotANumber, pieces[n - 1]),
            },
            refused => refused,
        }
    }
}

/// A list of multiples: refused where a piece is no number, where there is none, or where one of
/// the numbers is zero.
pub open spec fn multiple_list(s: Seq<char>) -> Outcome<usize> {
    let pieces = chars::pieces(s);
    if pieces.len() == 0 {
        Outcome::Refused(GridFault::Empty, Seq::empty())
    } else {
        match numbers_of(pieces, pieces.len()) {
            Outcome::Accepted(v) => if forall|i: int| 0 <= i < v.len() ==> v[i] >= 1 {
                Outcome::Accepted(v)
            } else {
                Outcome::Refused(GridFault::TooSmall, Seq::empty())
            },
            refused => refused,
        }
    }
}

proof fn lemma_bad_numbers_stay(pieces: Seq<Seq<char>>, a: nat, b: nat)
    requires
        a <= b,
        numbers_of(pieces, a) is Refused,
    ensures
        numbers_of(pieces, b) == numbers_of(pieces, a),
    decreases b,
{
    if a < b {
        lemma_bad_numbers_stay(pieces, a, (b - 1) as nat);
    }
}

/// Reads a list of multiples such as `1,2,4,8`.
pub fn parse_multiples(spec: &str) -> (r: Result<Vec<usize>, GridError>)
    ensures
        gives(r, multiple_list(spec@)),
{
    let pieces: Vec<String> = chars::split_list(spec);
    let ghost ps = chars::pieces(spec@);
    assert(pieces@.len() == chars::texts(pieces@).len());
    if pieces.len() == 0 {
        return Err(GridError { fault: GridFault::Empty, piece: String::new() });
    }
    let mut out: Vec<usize> = Vec::new();
    for i in 0..pieces.len()
        invariant
            chars::texts(pieces@) == ps,
            ps == chars::pieces(spec@),
            ps.len() > 0,
            numbers_of(ps, i as nat) == Outcome::Accepted(out@),
    {
        assert(chars::texts(pieces@)[i as int] == pieces@[i as int]@);
        match chars::parse_number(pieces[i].as_str()) {
            Some(x) => {
                out.push(x);
            },
            None => {
                proof {
                    lemma_bad_numbers_stay(ps, (i + 1) as nat, ps.len());
                }
                return Err(
                    GridError { fault: GridFault::NotANumber, piece: pieces[i].clone() },
                );
            },
        }
    }
    for i in 0..out.len()
        invariant
            ps == chars::pieces(spec@),
            ps.len() > 0,
            numbers_of(ps, ps.len()) == Outcome::Accepted(out@),
            forall|j: int| 0 <= j < i ==> out@[j] >= 1,
    {
        if out[i] < 1 {
            return Err(GridError { fault: GridFault::TooSmall, piece: String::new() });
        }
    }
    Ok(out)
}

/// The factors that the readings of the first `n` pieces give, up to the first that is refused.
pub open spec fn factors_of(pieces: Seq<Seq<char>>, reads: Seq<Option<u32>>, n: nat) -> Outcome<u32>
    decreases n,
{
    if n == 0 {
        Outcome::Accepted(Seq::empty())
    } else {
        match factors_of(pieces, reads, (n - 1) as nat) {
            Outcome::Accepted(v) => match reads[n - 1] {
                None => Outcome::Refused(GridFault::NotANumber, pieces[n - 1]),
                Some(f) => if float_bits::at_least_zero(f) {
                    Outcome::Accepted(v.push(f))
                } else {
                    Outcome::Refused(GridFault::Negative, pieces[n - 1])
                },
            },
            refused => refused,
        }
    }
}

/// A list of factors, given how its pieces read: refused where a piece is, or where there is none.
pub open spec fn factor_list(pieces: Seq<Seq<char>>, reads: Seq<Option<u32>>) -> Outcome<u32> {
    if pieces.len() == 0 {
        Outcome::Refused(GridFault::Empty, Seq::empty())
    } else {
        factors_of(pieces, reads, pieces.len())
    }
}

/// Whether `read` may make `f` of a text.
pub open spec fn reads_as<P: Fn(&str) -> Option<u32>>(
    read: &P,
    s: Seq<char>,
    f: Option<u32>,
) -> bool {
    exists|t: &str| t@ == s && #[trigger] call_ensures(read, (t,), f)
}

/// Whether `read` may read the pieces so, up to the first that is refused.
pub open spec fn are_readings<P: Fn(&str) -> Option<u32>>(
    read: &P,
    pieces: Seq<Seq<char>>,
    reads: Seq<Option<u32>>,
) -> bool {
    &&& reads.len() == pieces.len()
    &&& forall|i: int|
        0 <= i < pieces.len() && factors_of(pieces, reads, i as nat) is Accepted ==> #[trigger]
        reads_as(read, pieces[i], reads[i])
}

proof fn lemma_bad_factors_stay(pieces: Seq<Seq<char>>, reads: Seq<Option<u32>>, a: nat, b: nat)
    requires
        a <= b,
        factors_of(pieces, reads, a) is Refused,
    ensures
        factors_of(pieces, reads, b) == factors_of(pieces, reads, a),
    decreases b,
{
    if a < b {
        lemma_bad_factors_stay(pieces, reads, a, (b - 1) as nat);
    }
}

proof fn lemma_factors_are_local(
    pieces: Seq<Seq<char>>,
    a: Seq<Option<u32>>,
    b: Seq<Option<u32>>,
    n: nat,
)
    requires
        forall|i: int| 0 <= i < n ==> a[i] == b[i],
    ensures
        factors_of(pieces, a, n) == factors_of(pieces, b, n),
    decreases n,
{
    if n > 0 {
        lemma_factors_are_local(pieces, a, b, (n - 1) as nat);
    }
}

/// The readings so far, filled up.
spec fn padded(reads: Seq<Option<u32>>, n: nat) -> Seq<Option<u32>> {
    Seq::new(
        n,
        |i: int|
            if i < reads.len() {
                reads[i]
            } else {
                None
            },
    )
}

proof fn lemma_padded<P: Fn(&str) -> Option<u32>>(
    read: &P,
    pieces: Seq<Seq<char>>,
    reads: Seq<Option<u32>>,
)
    requires
        reads.len() <= pieces.len(),
        forall|i: int| 0 <= i < reads.len() ==> #[trigger] reads_as(read, pieces[i], reads[i]),
        reads.len() == pieces.len() || factors_of(pieces, reads, reads.len()) is Refused,
    ensures
        are_readings(read, pieces, padded(reads, pieces.len())),
        factors_of(pieces, padded(reads, pieces.len()), pieces.len()) == factors_of(
            pieces,
            reads,
            reads.len(),
        ),
{
    let all = padded(reads, pieces.len());
    lemma_factors_are_local(pieces, reads, all, reads.len());
    if reads.len() < pieces.len() {
        lemma_bad_factors_stay(pieces, all, reads.len(), pieces.len());
    }
    assert forall|i: int|
        0 <= i < pieces.len() && factors_of(pieces, all, i as nat) is Accepted implies #[trigger]
    reads_as(read, pieces[i], all[i]) by {
        if i >= reads.len() {
            lemma_bad_factors_stay(pieces, all, reads.len(), i as nat);
        } else {
            assert(reads_as(read, pieces[i], reads[i]));
        }
    }
}

/// Reads a list of capacity factors such as `0,1.0,1.25`; `read` reads one number.
pub fn parse_factors<P: Fn(&str) -> Option<u32>>(spec: &str, read: &P) -> (r: Result<
    Vec<u32>,
    GridError,
>)
    requires
        forall|t: &str| call_requires(read, (t,)),
    ensures
        exists|reads: Seq<Option<u32>>| #[trigger]
            are_readings(read, chars::pieces(spec@), reads) && gives(
                r,
                factor_list(chars::pieces(spec@), reads),
            ),
{
    let pieces: Vec<String> = chars::split_list(spec);
    let ghost ps = chars::pieces(spec@);
    assert(pieces@.len() == chars::texts(pieces@).len());
    let ghost mut reads: Seq<Option<u32>> = Seq::empty();
    if pieces.len() == 0 {
        assert(are_readings(read, ps, reads));
        return Err(GridError { fault: GridFault::Empty, piece: String::new() });
    }
    let mut out: Vec<u32> = Vec::new();
    for i in 0..pieces.len()
        invariant
            chars::texts(pieces@) == ps,
            ps == chars::pieces(spec@),
            ps.len() > 0,
            ps.len() == pieces@.len(),
            forall|t: &str| call_requires(read, (t,)),
            reads.len() == i,
            forall|j: int| 0 <= j < i ==> #[trigger] reads_as(read, ps[j], reads[j]),
            factors_of(ps, reads, i as nat) == Outcome::Accepted(out@),
    {
        assert(chars::texts(pieces@)[i as int] == pieces@[i as int]@);
        let piece: &str = pieces[i].as_str();
        let f: Option<u32> = read(piece);
        let ghost before = reads;
        proof {
            reads = before.push(f);
            assert(call_ensures(read, (piece,), f));
            assert(reads_as(read, ps[i as int], f));
            lemma_factors_are_local(ps, before, reads, i as nat);
            assert forall|j: int| 0 <= j < i + 1 implies #[trigger] reads_as(read, ps[j], reads[j]) by {
                if j < i {
                    assert(reads_as(read, ps[j], before[j]));
                }
            }
        }
        match f {
            None => {
                proof {
                    lemma_padded(read, ps, reads);
                }
                return Err(
                    GridError { fault: GridFault::NotANumber, piece: pieces[i].clone() },
                );
            },
            Some(v) => {
                if !float_bits::is_at_least_zero(v) {
                    proof {
                        lemma_padded(read, ps, reads);
                    }
                    return Err(
                        GridError { fault: GridFault::Negative, piece: pieces[i].clone() },
                    );
                }
                out.push(v);
            },
        }
    }
    proof {
        lemma_padded(read, ps, reads);
    }
    Ok(out)
}

/// A grid that is accepted has a size, and all its layers and widths are at least one.
pub proof fn accepted_sizes_are_positive(pieces: Seq<Seq<char>>, n: nat)
    ensures
        sizes_of(pieces, n) matches Outcome::Accepted(v) ==> v.len() == n && forall|i: int|
            0 <= i < n ==> (#[trigger] v[i]).0 >= 1 && v[i].1 >= 1,
    decreases n,
{
    if n > 0 {
        accepted_sizes_are_positive(pieces, (n - 1) as nat);
    }
}

} // verus!
