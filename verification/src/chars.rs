//! Cutting and reading text: trimming, splitting, numbers, character boundaries.

use crate::text;
use vstd::prelude::*;
use vstd::utf8;

verus! {

/// White space.
pub open spec fn blank(c: char) -> bool {
    let u = c as u32;
    ||| 9 <= u <= 13
    ||| u == 0x20
    ||| u == 0x85
    ||| u == 0xa0
    ||| u == 0x1680
    ||| 0x2000 <= u <= 0x200a
    ||| u == 0x2028
    ||| u == 0x2029
    ||| u == 0x202f
    ||| u == 0x205f
    ||| u == 0x3000
}

/// Whether a character is white space.
pub fn is_blank(c: char) -> (r: bool)
    ensures
        r == blank(c),
{
    let u: u32 = c as u32;
    (9 <= u && u <= 13) || u == 0x20 || u == 0x85 || u == 0xa0 || u == 0x1680 || (0x2000 <= u && u
        <= 0x200a) || u == 0x2028 || u == 0x2029 || u == 0x202f || u == 0x205f || u == 0x3000
}

/// The first position from `i` on that holds no white space.
pub open spec fn first_solid(s: Seq<char>, i: int) -> int
    decreases s.len() - i,
{
    if 0 <= i < s.len() && blank(s[i]) {
        first_solid(s, i + 1)
    } else {
        i
    }
}

/// The position behind the last character before `i` that is no white space.
pub open spec fn behind_solid(s: Seq<char>, i: int) -> int
    decreases i,
{
    if 0 < i <= s.len() && blank(s[i - 1]) {
        behind_solid(s, i - 1)
    } else {
        i
    }
}

/// A text without the white space at its ends.
pub open spec fn trimmed(s: Seq<char>) -> Seq<char> {
    let a = first_solid(s, 0);
    let b = behind_solid(s, s.len() as int);
    if a < b {
        s.subrange(a, b)
    } else {
        Seq::empty()
    }
}

/// Takes the white space off both ends.
pub fn trim(s: &str) -> (r: &str)
    ensures
        r@ == trimmed(s@),
{
    let n: usize = s.unicode_len();
    let mut a: usize = 0;
    while a < n && is_blank(s.get_char(a))
        invariant
            n == s@.len(),
            a <= n,
            first_solid(s@, 0) == first_solid(s@, a as int),
        decreases n - a,
    {
        a += 1;
    }
    let mut b: usize = n;
    while b > a && is_blank(s.get_char(b - 1))
        invariant
            n == s@.len(),
            a <= b <= n,
            behind_solid(s@, n as int) == behind_solid(s@, b as int),
        decreases b,
    {
        b -= 1;
    }
    proof {
        assert(first_solid(s@, 0) == a);
        if a == b {
            lemma_behind_is_before(s@, b as int);
            assert(s@.subrange(a as int, b as int) =~= Seq::empty());
        }
    }
    s.substring_char(a, b)
}

proof fn lemma_behind_is_before(s: Seq<char>, i: int)
    ensures
        behind_solid(s, i) <= i,
    decreases i,
{
    if 0 < i <= s.len() && blank(s[i - 1]) {
        lemma_behind_is_before(s, i - 1);
    }
}

/// A trimmed text neither begins nor ends with white space.
pub proof fn trimming_leaves_no_blank_ends(s: Seq<char>)
    ensures
        trimmed(s).len() > 0 ==> !blank(trimmed(s)[0]) && !blank(trimmed(s).last()),
{
    lemma_first_is_solid(s, 0);
    lemma_last_is_solid(s, s.len() as int);
}

/// Trimming a trimmed text changes nothing.
pub proof fn trimming_twice(s: Seq<char>)
    ensures
        trimmed(trimmed(s)) == trimmed(s),
{
    let t = trimmed(s);
    trimming_leaves_no_blank_ends(s);
    if t.len() > 0 {
        assert(first_solid(t, 0) == 0);
        assert(behind_solid(t, t.len() as int) == t.len());
        assert(t.subrange(0, t.len() as int) =~= t);
    } else {
        lemma_behind_is_before(t, 0);
        assert(trimmed(t) =~= t);
    }
}

proof fn lemma_first_is_solid(s: Seq<char>, i: int)
    requires
        0 <= i <= s.len(),
    ensures
        i <= first_solid(s, i) <= s.len(),
        first_solid(s, i) < s.len() ==> !blank(s[first_solid(s, i)]),
    decreases s.len() - i,
{
    if i < s.len() && blank(s[i]) {
        lemma_first_is_solid(s, i + 1);
    }
}

proof fn lemma_last_is_solid(s: Seq<char>, i: int)
    requires
        0 <= i <= s.len(),
    ensures
        0 <= behind_solid(s, i) <= i,
        behind_solid(s, i) > 0 ==> !blank(s[behind_solid(s, i) - 1]),
    decreases i,
{
    if i > 0 && blank(s[i - 1]) {
        lemma_last_is_solid(s, i - 1);
    }
}

/// The fields of the first `n` characters, cut at a separator.
pub open spec fn fields(s: Seq<char>, sep: char, n: nat) -> Seq<Seq<char>>
    decreases n,
{
    if n == 0 {
        seq![Seq::empty()]
    } else {
        let before = fields(s, sep, (n - 1) as nat);
        if s[n - 1] == sep {
            before.push(Seq::empty())
        } else {
            before.drop_last().push(before.last().push(s[n - 1]))
        }
    }
}

/// The fields that hold something once trimmed, of the first `n`.
pub open spec fn solid_fields(fs: Seq<Seq<char>>, n: nat) -> Seq<Seq<char>>
    decreases n,
{
    if n == 0 {
        Seq::empty()
    } else {
        let before = solid_fields(fs, (n - 1) as nat);
        let piece = trimmed(fs[n - 1]);
        if piece.len() == 0 {
            before
        } else {
            before.push(piece)
        }
    }
}

/// The pieces of a comma-separated list: trimmed, empty ones left out.
pub open spec fn pieces(s: Seq<char>) -> Seq<Seq<char>> {
    let fs = fields(s, ',', s.len());
    solid_fields(fs, fs.len())
}

/// The contents of a list of texts.
pub open spec fn texts(v: Seq<String>) -> Seq<Seq<char>> {
    Seq::new(v.len(), |i: int| v[i]@)
}

/// Cuts a comma-separated list into its pieces.
pub fn split_list(s: &str) -> (r: Vec<String>)
    ensures
        texts(r@) == pieces(s@),
{
    let n: usize = s.unicode_len();
    let mut out: Vec<String> = Vec::new();
    let mut start: usize = 0;
    let ghost mut done: Seq<Seq<char>> = Seq::empty();
    assert(texts(out@) =~= solid_fields(done, 0));
    assert(s@.subrange(0, 0) =~= Seq::empty());
    assert(fields(s@, ',', 0) =~= done.push(s@.subrange(0, 0)));
    for i in 0..n
        invariant
            n == s@.len(),
            start <= i,
            fields(s@, ',', i as nat) == done.push(s@.subrange(start as int, i as int)),
            texts(out@) == solid_fields(done, done.len()),
    {
        let ghost before = done;
        let ghost now = s@.subrange(start as int, i as int);
        if s.get_char(i) == ',' {
            let piece: &str = trim(s.substring_char(start, i));
            proof {
                done = before.push(now);
                lemma_solid_fields_are_local(before, now, before.len());
                assert(s@.subrange(i + 1, i + 1) =~= Seq::empty());
                assert(fields(s@, ',', (i + 1) as nat) == done.push(Seq::empty()));
                assert(done[done.len() - 1] == now);
            }
            if !piece.is_empty() {
                let ghost kept = out@;
                out.push(String::from_str(piece));
                assert(texts(out@) =~= texts(kept).push(piece@));
            }
            start = i + 1;
        } else {
            proof {
                assert(s@.subrange(start as int, i + 1) =~= now.push(s@[i as int]));
                assert(before.push(now).drop_last() =~= before);
            }
        }
    }
    let piece: &str = trim(s.substring_char(start, n));
    let ghost last = s@.subrange(start as int, n as int);
    proof {
        lemma_solid_fields_are_local(done, last, done.len());
        assert(done.push(last)[done.len() as int] == last);
    }
    if !piece.is_empty() {
        let ghost kept = out@;
        out.push(String::from_str(piece));
        assert(texts(out@) =~= texts(kept).push(piece@));
    }
    out
}

proof fn lemma_solid_fields_are_local(fs: Seq<Seq<char>>, more: Seq<char>, n: nat)
    requires
        n <= fs.len(),
    ensures
        solid_fields(fs.push(more), n) == solid_fields(fs, n),
    decreases n,
{
    if n > 0 {
        lemma_solid_fields_are_local(fs, more, (n - 1) as nat);
    }
}

/// Pieces are never empty and have no white space at their ends.
pub proof fn pieces_are_solid(fs: Seq<Seq<char>>, n: nat)
    requires
        n <= fs.len(),
    ensures
        forall|i: int|
            0 <= i < solid_fields(fs, n).len() ==> (#[trigger] solid_fields(fs, n)[i]).len() > 0
                && !blank(solid_fields(fs, n)[i][0]) && !blank(solid_fields(fs, n)[i].last()),
    decreases n,
{
    if n > 0 {
        pieces_are_solid(fs, (n - 1) as nat);
        trimming_leaves_no_blank_ends(fs[n - 1]);
        let before = solid_fields(fs, (n - 1) as nat);
        let now = solid_fields(fs, n);
        assert forall|i: int| 0 <= i < now.len() implies (#[trigger] now[i]).len() > 0 && !blank(
            now[i][0],
        ) && !blank(now[i].last()) by {
            if i < before.len() {
                assert(now[i] == before[i]);
            }
        }
    }
}

/// Whether all characters are decimal digits.
pub open spec fn all_digits(s: Seq<char>) -> bool {
    forall|i: int| 0 <= i < s.len() ==> '0' <= #[trigger] s[i] <= '9'
}

/// The number that decimal digits write.
pub open spec fn value(s: Seq<char>) -> nat
    decreases s.len(),
{
    if s.len() == 0 {
        0
    } else {
        10 * value(s.drop_last()) + (s.last() as int - '0' as int) as nat
    }
}

/// A text without one leading plus sign.
pub open spec fn unsigned(s: Seq<char>) -> Seq<char> {
    if s.len() > 0 && s[0] == '+' {
        s.skip(1)
    } else {
        s
    }
}

/// The machine number that a text writes, if it does.
pub open spec fn number(s: Seq<char>) -> Option<usize> {
    let d = unsigned(s);
    if d.len() > 0 && all_digits(d) && value(d) <= usize::MAX {
        Some(value(d) as usize)
    } else {
        None
    }
}

proof fn lemma_value_grows(s: Seq<char>, k: int)
    requires
        0 <= k <= s.len(),
    ensures
        value(s.take(k)) <= value(s),
    decreases s.len(),
{
    if k == s.len() {
        assert(s.take(k) =~= s);
    } else {
        lemma_value_grows(s.drop_last(), k);
        assert(s.drop_last().take(k) =~= s.take(k));
    }
}

/// Reads a number.
pub fn parse_number(s: &str) -> (r: Option<usize>)
    ensures
        r == number(s@),
{
    let n: usize = s.unicode_len();
    let start: usize = if n > 0 && s.get_char(0) == '+' {
        1
    } else {
        0
    };
    let ghost d = unsigned(s@);
    proof {
        assert(start == 0 ==> d =~= s@.skip(0));
        assert(d =~= s@.skip(start as int));
    }
    if start == n {
        return None;
    }
    let mut total: usize = 0;
    assert(d.take(0) =~= Seq::empty());
    for i in start..n
        invariant
            n == s@.len(),
            start <= n,
            d == unsigned(s@),
            d == s@.skip(start as int),
            forall|j: int| 0 <= j < i - start ==> '0' <= #[trigger] d[j] <= '9',
            total == value(d.take(i - start)),
    {
        let c: char = s.get_char(i);
        assert(c == d[i - start]);
        if c < '0' || c > '9' {
            return None;
        }
        let v: usize = (c as u32 - '0' as u32) as usize;
        proof {
            assert(d.take(i - start + 1).drop_last() =~= d.take(i - start));
            assert(d.take(i - start + 1).last() == c);
            lemma_value_grows(d, i - start + 1);
        }
        if total > (usize::MAX - v) / 10 {
            return None;
        }
        total = total * 10 + v;
    }
    proof {
        assert(d.take(n - start) =~= d);
    }
    Some(total)
}

/// Reading what was written gives the number back.
pub proof fn numbers_read_back(n: usize)
    ensures
        number(text::digits(n as nat)) == Some(n),
{
    lemma_digits_have_value(n as nat);
    text::decimal_forms_differ(n as nat, n as nat);
    let s = text::digits(n as nat);
    assert(s[0] != '+');
}

proof fn lemma_digits_have_value(n: nat)
    ensures
        value(text::digits(n)) == n,
    decreases n,
{
    let s = text::digits(n);
    if n >= 10 {
        lemma_digits_have_value(n / 10);
        assert(s.drop_last() =~= text::digits(n / 10));
    } else {
        assert(s.drop_last() =~= Seq::empty());
    }
    assert(value(Seq::empty()) == 0);
    let last = text::digit((n % 10) as int);
    assert(s.last() == last);
    assert(last as int == '0' as int + n % 10);
    assert(value(s) == 10 * value(s.drop_last()) + n % 10);
}

/// The first `n` characters of a text.
pub fn truncate_chars(s: &str, n: usize) -> (r: String)
    ensures
        r@ == if s@.len() <= n {
            s@
        } else {
            s@.take(n as int)
        },
{
    let len: usize = s.unicode_len();
    if len <= n {
        String::from_str(s)
    } else {
        String::from_str(s.substring_char(0, n))
    }
}

/// The last character boundary at or before byte `i`; the length where `i` lies behind the end.
pub fn floor_char_boundary(s: &str, i: usize) -> (r: usize)
    ensures
        i >= utf8::encode_utf8(s@).len() ==> r == utf8::encode_utf8(s@).len(),
        i < utf8::encode_utf8(s@).len() ==> r <= i,
        utf8::is_char_boundary(utf8::encode_utf8(s@), r as int),
        forall|k: int|
            r < k <= i && k <= utf8::encode_utf8(s@).len() ==> !#[trigger] utf8::is_char_boundary(
                utf8::encode_utf8(s@),
                k,
            ),
{
    let len: usize = s.as_bytes().len();
    proof {
        utf8::encode_utf8_valid_utf8(s@);
        utf8::is_char_boundary_start_end_of_seq(utf8::encode_utf8(s@));
    }
    if i >= len {
        return len;
    }
    let mut r: usize = i;
    while !s.is_char_boundary(r)
        invariant
            r <= i < len,
            len == utf8::encode_utf8(s@).len(),
            utf8::is_char_boundary(utf8::encode_utf8(s@), 0),
            forall|k: int|
                r < k <= i ==> !#[trigger] utf8::is_char_boundary(utf8::encode_utf8(s@), k),
        decreases r,
    {
        r -= 1;
    }
    r
}

/// The bytes of two texts, one after the other.
proof fn lemma_bytes_of_concat(a: Seq<char>, b: Seq<char>)
    ensures
        utf8::encode_utf8(a + b) == utf8::encode_utf8(a) + utf8::encode_utf8(b),
    decreases a.len(),
{
    if a.len() == 0 {
        assert(a + b =~= b);
        assert(utf8::encode_utf8(a) + utf8::encode_utf8(b) =~= utf8::encode_utf8(b));
    } else {
        lemma_bytes_of_concat(a.drop_first(), b);
        assert((a + b).drop_first() =~= a.drop_first() + b);
        assert(utf8::encode_utf8(a + b) =~= utf8::encode_utf8(a) + utf8::encode_utf8(b));
    }
}

/// A text ends on a boundary of every text that begins with it.
proof fn lemma_prefix_ends_on_boundary(a: Seq<char>, b: Seq<char>)
    ensures
        utf8::is_char_boundary(utf8::encode_utf8(a + b), utf8::encode_utf8(a).len() as int),
    decreases a.len(),
{
    utf8::encode_utf8_valid_utf8(a + b);
    if a.len() > 0 {
        let t = a + b;
        lemma_prefix_ends_on_boundary(a.drop_first(), b);
        assert(t.drop_first() =~= a.drop_first() + b);
        utf8::encode_utf8_first_scalar(t);
        lemma_bytes_of_concat(a, b);
        assert(utf8::pop_first_scalar(utf8::encode_utf8(t)) =~= utf8::encode_utf8(t.drop_first()));
        assert(utf8::encode_utf8(a).len() == utf8::encode_scalar(a[0] as u32).len()
            + utf8::encode_utf8(a.drop_first()).len());
    }
}

/// What follows a text of `len` bytes, cut back to a character boundary and trimmed.
pub open spec fn follows(out: Seq<char>, len: int, r: Seq<char>) -> bool {
    let bytes = utf8::encode_utf8(out);
    exists|at: int, rest: Seq<char>|
        #![trigger utf8::is_char_boundary(bytes, at), trimmed(rest)]
        0 <= at <= bytes.len() && at <= len && utf8::is_char_boundary(bytes, at) && (forall|k: int|
            at < k <= len && k <= bytes.len() ==> !#[trigger] utf8::is_char_boundary(bytes, k))
            && utf8::encode_utf8(rest) == bytes.subrange(at, bytes.len() as int) && r == trimmed(
            rest,
        )
}

/// The answer in a text that begins with the prompt: what comes behind as many bytes as the prompt
/// has, without white space at its ends.
pub fn answer_after(out: &str, prompt: &str) -> (r: String)
    ensures
        follows(out@, utf8::encode_utf8(prompt@).len() as int, r@),
{
    let len: usize = prompt.as_bytes().len();
    let at: usize = floor_char_boundary(out, len);
    let (_, rest) = out.split_at(at);
    let r: &str = trim(rest);
    assert(utf8::is_char_boundary(utf8::encode_utf8(out@), at as int));
    assert(r@ == trimmed(rest@));
    String::from_str(r)
}

/// Where a text is a prompt and something more, the answer in it is the trimmed rest.
pub proof fn answers_follow_the_prompt(prompt: Seq<char>, more: Seq<char>, r: Seq<char>)
    requires
        follows(prompt + more, utf8::encode_utf8(prompt).len() as int, r),
    ensures
        r == trimmed(more),
{
    let out = prompt + more;
    let bytes = utf8::encode_utf8(out);
    let len = utf8::encode_utf8(prompt).len() as int;
    lemma_prefix_ends_on_boundary(prompt, more);
    lemma_bytes_of_concat(prompt, more);
    let (at, rest) = choose|at: int, rest: Seq<char>|
        #![trigger utf8::is_char_boundary(bytes, at), trimmed(rest)]
        0 <= at <= bytes.len() && at <= len && utf8::is_char_boundary(bytes, at) && (forall|k: int|
            at < k <= len && k <= bytes.len() ==> !#[trigger] utf8::is_char_boundary(bytes, k))
            && utf8::encode_utf8(rest) == bytes.subrange(at, bytes.len() as int) && r == trimmed(
            rest,
        );
    assert(at == len);
    assert(bytes.subrange(at, bytes.len() as int) =~= utf8::encode_utf8(more));
    utf8::encode_utf8_decode_utf8(rest);
    utf8::encode_utf8_decode_utf8(more);
}

} // verus!
