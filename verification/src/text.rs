// What the solvers share when they read text. A text is a string of bytes,
// in UTF-8 where it holds more than ASCII. The letters and digits that the
// solvers look for are those of ASCII; white space is what Unicode calls so.

use vstd::prelude::*;
use vstd::slice::slice_subrange;

verus! {

/// The classes of bytes that the solvers tell apart.
#[derive(Debug, Clone, Copy, PartialEq, Eq)]
pub enum Class {
    /// The decimal digits `0` to `9`.
    Digit,
    /// The letters `A` to `Z` and `a` to `z`.
    Alpha,
    /// The space and the tab.
    Blank,
    /// The space and the line feed.
    Gap,
}

impl Class {
    /// The byte `b` belongs to the class.
    pub open spec fn has(self, b: u8) -> bool {
        match self {
            Class::Digit => 48 <= b <= 57,
            Class::Alpha => 65 <= b <= 90 || 97 <= b <= 122,
            Class::Blank => b == 32 || b == 9,
            Class::Gap => b == 32 || b == 10,
        }
    }

    /// Tests a byte for belonging to the class.
    pub fn holds(self, b: u8) -> (r: bool)
        ensures
            r == self.has(b),
    {
        match self {
            Class::Digit => b >= 48 && b <= 57,
            Class::Alpha => (b >= 65 && b <= 90) || (b >= 97 && b <= 122),
            Class::Blank => b == 32 || b == 9,
            Class::Gap => b == 32 || b == 10,
        }
    }
}

/// Whether `b` is one of the ASCII decimal digits `'0'..='9'`.
pub open spec fn is_digit(b: u8) -> bool {
    Class::Digit.has(b)
}

/// Every byte of `s` is a decimal digit.
pub open spec fn all_digits(s: Seq<u8>) -> bool {
    forall|i: int| 0 <= i < s.len() ==> is_digit(#[trigger] s[i])
}

/// Where the longest run of bytes of class `c` that starts at `pos` ends.
pub open spec fn run_end(s: Seq<u8>, pos: int, c: Class) -> int
    decreases s.len() - pos,
{
    if 0 <= pos < s.len() && c.has(s[pos]) {
        run_end(s, pos + 1, c)
    } else {
        pos
    }
}

/// A run starts where it was asked for, ends within the text, holds only
/// bytes of its class, and stops at a byte of another class.
pub proof fn lemma_run_end(s: Seq<u8>, pos: int, c: Class)
    requires
        0 <= pos <= s.len(),
    ensures
        pos <= run_end(s, pos, c) <= s.len(),
        forall|i: int| pos <= i < run_end(s, pos, c) ==> c.has(#[trigger] s[i]),
        run_end(s, pos, c) < s.len() ==> !c.has(s[run_end(s, pos, c)]),
    decreases s.len() - pos,
{
    if pos < s.len() && c.has(s[pos]) {
        lemma_run_end(s, pos + 1, c);
    }
}

/// Finds the end of the run of bytes of class `c` that starts at `pos`.
pub fn scan(s: &[u8], pos: usize, c: Class) -> (end: usize)
    requires
        pos <= s@.len(),
    ensures
        end == run_end(s@, pos as int, c),
        pos <= end <= s@.len(),
{
    let mut i: usize = pos;
    while i < s.len() && c.holds(s[i])
        invariant
            pos <= i <= s@.len(),
            run_end(s@, pos as int, c) == run_end(s@, i as int, c),
        decreases s@.len() - i,
    {
        i += 1;
    }
    i
}

/// How many bytes the white space character that starts at `i` takes up,
/// or 0 where none starts there. White space is U+0009 to U+000D, U+0020,
/// U+0085, U+00A0, U+1680, U+2000 to U+200A, U+2028, U+2029, U+202F, U+205F
/// and U+3000, each in its UTF-8 form.
pub open spec fn space_at(s: Seq<u8>, i: int) -> int {
    if i < 0 || i >= s.len() {
        0
    } else if s[i] == 0x20 || 0x09 <= s[i] <= 0x0d {
        1
    } else if i + 1 < s.len() && s[i] == 0xc2 && (s[i + 1] == 0x85 || s[i + 1] == 0xa0) {
        2
    } else if i + 2 >= s.len() {
        0
    } else if s[i] == 0xe1 && s[i + 1] == 0x9a && s[i + 2] == 0x80 {
        3
    } else if s[i] == 0xe2 && s[i + 1] == 0x80 && (0x80 <= s[i + 2] <= 0x8a || s[i + 2] == 0xa8
        || s[i + 2] == 0xa9 || s[i + 2] == 0xaf) {
        3
    } else if s[i] == 0xe2 && s[i + 1] == 0x81 && s[i + 2] == 0x9f {
        3
    } else if s[i] == 0xe3 && s[i + 1] == 0x80 && s[i + 2] == 0x80 {
        3
    } else {
        0
    }
}

/// How many bytes the white space character that ends at `end`, and starts
/// at `lo` or after it, takes up, or 0 where none ends there.
pub open spec fn space_before(s: Seq<u8>, lo: int, end: int) -> int {
    if lo <= end - 1 && space_at(s, end - 1) == 1 {
        1
    } else if lo <= end - 2 && space_at(s, end - 2) == 2 {
        2
    } else if lo <= end - 3 && space_at(s, end - 3) == 3 {
        3
    } else {
        0
    }
}

/// Where the white space that starts at `pos` ends.
pub open spec fn spaces_end(s: Seq<u8>, pos: int) -> int
    decreases s.len() - pos,
{
    if space_at(s, pos) > 0 {
        spaces_end(s, pos + space_at(s, pos))
    } else {
        pos
    }
}

/// Where the white space that ends at `end`, and does not reach back
/// beyond `lo`, starts.
pub open spec fn spaces_start(s: Seq<u8>, lo: int, end: int) -> int
    decreases end,
{
    if space_before(s, lo, end) > 0 {
        spaces_start(s, lo, end - space_before(s, lo, end))
    } else {
        end
    }
}

/// Measures the white space character that starts at `i`.
pub fn space_len(s: &[u8], i: usize) -> (n: usize)
    ensures
        n == space_at(s@, i as int),
        n > 0 ==> i + n <= s@.len(),
{
    if i >= s.len() {
        return 0;
    }
    let left: usize = s.len() - i;
    let b = s[i];
    if b == 0x20 || (b >= 0x09 && b <= 0x0d) {
        return 1;
    }
    if left > 1 && b == 0xc2 && (s[i + 1] == 0x85 || s[i + 1] == 0xa0) {
        return 2;
    }
    if left <= 2 {
        return 0;
    }
    let c = s[i + 1];
    let d = s[i + 2];
    if b == 0xe1 && c == 0x9a && d == 0x80 {
        3
    } else if b == 0xe2 && c == 0x80 && ((d >= 0x80 && d <= 0x8a) || d == 0xa8 || d == 0xa9 || d
        == 0xaf) {
        3
    } else if b == 0xe2 && c == 0x81 && d == 0x9f {
        3
    } else if b == 0xe3 && c == 0x80 && d == 0x80 {
        3
    } else {
        0
    }
}

/// Finds the end of the white space that starts at `pos`.
pub fn skip_spaces(s: &[u8], pos: usize) -> (end: usize)
    requires
        pos <= s@.len(),
    ensures
        end == spaces_end(s@, pos as int),
        pos <= end <= s@.len(),
{
    let total = s.len();
    let mut i: usize = pos;
    loop
        invariant
            pos <= i <= s@.len() == total,
            spaces_end(s@, pos as int) == spaces_end(s@, i as int),
        decreases s@.len() - i,
    {
        let n = space_len(s, i);
        if n == 0 {
            return i;
        }
        i += n;
    }
}

/// Finds the start of the white space that ends at `end`, going back no
/// further than `lo`.
pub fn skip_spaces_back(s: &[u8], lo: usize, end: usize) -> (start: usize)
    requires
        lo <= end <= s@.len(),
    ensures
        start == spaces_start(s@, lo as int, end as int),
        lo <= start <= end,
{
    let mut i: usize = end;
    loop
        invariant
            lo <= i <= end <= s@.len(),
            spaces_start(s@, lo as int, end as int) == spaces_start(s@, lo as int, i as int),
        decreases i,
    {
        if i - lo >= 1 && space_len(s, i - 1) == 1 {
            i -= 1;
        } else if i - lo >= 2 && space_len(s, i - 2) == 2 {
            i -= 2;
        } else if i - lo >= 3 && space_len(s, i - 3) == 3 {
            i -= 3;
        } else {
            return i;
        }
    }
}

/// The text without the white space at its two ends.
pub open spec fn trimmed(s: Seq<u8>) -> Seq<u8> {
    s.subrange(spaces_end(s, 0), spaces_start(s, spaces_end(s, 0), s.len() as int))
}

/// Removes the white space at the two ends of a text.
pub fn trim(s: &[u8]) -> (r: &[u8])
    ensures
        r@ == trimmed(s@),
{
    let lo = skip_spaces(s, 0);
    let hi = skip_spaces_back(s, lo, s.len());
    slice_subrange(s, lo, hi)
}

/// Compares two byte strings for equality.
pub fn bytes_eq(a: &[u8], b: &[u8]) -> (r: bool)
    ensures
        r == (a@ == b@),
{
    if a.len() != b.len() {
        return false;
    }
    let mut i: usize = 0;
    while i < a.len()
        invariant
            a@.len() == b@.len(),
            i <= a@.len(),
            forall|j: int| 0 <= j < i ==> a@[j] == b@[j],
        decreases a@.len() - i,
    {
        if a[i] != b[i] {
            return false;
        }
        i += 1;
    }
    assert(a@ =~= b@);
    true
}

/// The text `pat` stands in `s` at `pos`.
pub open spec fn starts_at(s: Seq<u8>, pos: int, pat: Seq<u8>) -> bool {
    0 <= pos && pos + pat.len() <= s.len() && s.subrange(pos, pos + pat.len()) == pat
}

/// Tests whether `pat` stands in `s` at `pos`.
pub fn has_at(s: &[u8], pos: usize, pat: &[u8]) -> (r: bool)
    requires
        pos <= s@.len(),
    ensures
        r == starts_at(s@, pos as int, pat@),
{
    if pat.len() > s.len() - pos {
        return false;
    }
    let mut i: usize = 0;
    while i < pat.len()
        invariant
            pos + pat@.len() <= s@.len() <= usize::MAX,
            i <= pat@.len(),
            forall|j: int| 0 <= j < i ==> s@[pos + j] == pat@[j],
        decreases pat@.len() - i,
    {
        if s[pos + i] != pat[i] {
            assert(s@.subrange(pos as int, pos + pat@.len())[i as int] != pat@[i as int]);
            return false;
        }
        i += 1;
    }
    assert(s@.subrange(pos as int, pos + pat@.len()) =~= pat@);
    true
}

/// The number that a string of decimal digits writes.
pub open spec fn decimal(s: Seq<u8>) -> nat
    decreases s.len(),
{
    if s.len() == 0 {
        0
    } else {
        decimal(s.drop_last()) * 10 + (s.last() - 48) as nat
    }
}

/// A string of digits writes a number no smaller than any of its prefixes does.
pub proof fn lemma_decimal_prefix(s: Seq<u8>, k: int)
    requires
        0 <= k <= s.len(),
        all_digits(s),
    ensures
        decimal(s.take(k)) <= decimal(s),
    decreases s.len(),
{
    if k == s.len() {
        assert(s.take(k) =~= s);
    } else {
        assert(s.drop_last().take(k) =~= s.take(k));
        assert(is_digit(s[s.len() - 1]));
        lemma_decimal_prefix(s.drop_last(), k);
    }
}

/// Reads a string of decimal digits as a number, as far as it is at most `max`.
pub fn parse_decimal(s: &[u8], max: u128) -> (r: Option<u128>)
    requires
        all_digits(s@),
    ensures
        r == (if decimal(s@) <= max {
            Some(decimal(s@) as u128)
        } else {
            None
        }),
{
    let mut acc: u128 = 0;
    let mut i: usize = 0;
    assert(s@.take(0) =~= Seq::<u8>::empty());
    while i < s.len()
        invariant
            i <= s@.len(),
            all_digits(s@),
            acc == decimal(s@.take(i as int)),
            acc <= max,
        decreases s@.len() - i,
    {
        assert(is_digit(s@[i as int]));
        let d: u128 = (s[i] - 48) as u128;
        proof {
            assert(s@.take(i + 1).drop_last() =~= s@.take(i as int));
            lemma_decimal_prefix(s@, i + 1);
        }
        if d > max || acc > (max - d) / 10 {
            return None;
        }
        acc = acc * 10 + d;
        i += 1;
    }
    assert(s@.take(i as int) =~= s@);
    Some(acc)
}

/// The number that stands at `pos`, if it is at most `max`, and where it ends:
/// the longest run of digits there, which must not be empty.
pub open spec fn number_at(s: Seq<u8>, pos: int, max: int) -> Option<(nat, int)> {
    let e = run_end(s, pos, Class::Digit);
    if 0 <= pos < e <= s.len() && decimal(s.subrange(pos, e)) <= max {
        Some((decimal(s.subrange(pos, e)), e))
    } else {
        None
    }
}

/// Reads the number that stands at `pos`.
pub fn read_number(s: &[u8], pos: usize, max: u128) -> (r: Option<(u128, usize)>)
    requires
        pos <= s@.len(),
    ensures
        match r {
            Some((v, e)) => number_at(s@, pos as int, max as int) == Some((v as nat, e as int))
                && pos < e <= s@.len(),
            None => number_at(s@, pos as int, max as int) is None,
        },
{
    let e = scan(s, pos, Class::Digit);
    if e == pos {
        return None;
    }
    proof {
        lemma_run_end(s@, pos as int, Class::Digit);
    }
    match parse_decimal(slice_subrange(s, pos, e), max) {
        Some(v) => Some((v, e)),
        None => None,
    }
}

/// The texts that a list of slices holds.
pub open spec fn texts(v: Seq<&[u8]>) -> Seq<Seq<u8>> {
    Seq::new(v.len(), |i: int| v[i]@)
}

/// A line without the carriage return that may end it.
pub open spec fn without_cr(line: Seq<u8>) -> Seq<u8> {
    if line.len() > 0 && line.last() == 13 {
        line.drop_last()
    } else {
        line
    }
}

/// The lines of `s` from `pos` on, the first of which began at `start`.
pub open spec fn lines_from(s: Seq<u8>, pos: int, start: int) -> Seq<Seq<u8>>
    decreases s.len() - pos,
{
    if pos < 0 || pos >= s.len() {
        if 0 <= start < s.len() {
            seq![s.subrange(start, s.len() as int)]
        } else {
            seq![]
        }
    } else if s[pos] == 10 {
        seq![without_cr(s.subrange(start, pos))] + lines_from(s, pos + 1, pos + 1)
    } else {
        lines_from(s, pos + 1, start)
    }
}

/// The lines of a text. A line ends at a line feed, or at the end of the
/// text; the line feed, and a carriage return just before it, are not part
/// of the line. A text that ends in a line feed has no empty last line.
pub open spec fn lines(s: Seq<u8>) -> Seq<Seq<u8>> {
    lines_from(s, 0, 0)
}

/// Cuts a text into its lines.
pub fn split_lines(s: &[u8]) -> (r: Vec<&[u8]>)
    ensures
        texts(r@) == lines(s@),
{
    let mut out: Vec<&[u8]> = Vec::new();
    let mut start: usize = 0;
    let mut pos: usize = 0;
    assert(texts(out@) =~= Seq::<Seq<u8>>::empty());
    while pos < s.len()
        invariant
            start <= pos <= s@.len(),
            lines(s@) == texts(out@) + lines_from(s@, pos as int, start as int),
        decreases s@.len() - pos,
    {
        if s[pos] == 10 {
            let end: usize = if pos > start && s[pos - 1] == 13 {
                pos - 1
            } else {
                pos
            };
            let line = slice_subrange(s, start, end);
            proof {
                let whole = s@.subrange(start as int, pos as int);
                if pos > start && s@[pos - 1] == 13 {
                    assert(whole.drop_last() =~= line@);
                }
                assert(line@ == without_cr(whole));
                assert(texts(out@.push(line)) =~= texts(out@) + seq![line@]);
            }
            out.push(line);
            start = pos + 1;
        }
        pos += 1;
    }
    if start < s.len() {
        let line = slice_subrange(s, start, s.len());
        proof {
            assert(texts(out@.push(line)) =~= texts(out@) + seq![line@]);
        }
        out.push(line);
    } else {
        assert(texts(out@) + Seq::<Seq<u8>>::empty() =~= texts(out@));
    }
    out
}

/// The parts of `s` from `start` on that lie between the occurrences of
/// `pat` found from `pos` on, each occurrence sought after the one before.
pub open spec fn parts_from(s: Seq<u8>, pat: Seq<u8>, pos: int, start: int) -> Seq<Seq<u8>>
    decreases s.len() - pos,
{
    if pos < 0 || pat.len() == 0 || pos + pat.len() > s.len() {
        seq![s.subrange(start, s.len() as int)]
    } else if starts_at(s, pos, pat) {
        seq![s.subrange(start, pos)] + parts_from(s, pat, pos + pat.len(), pos + pat.len())
    } else {
        parts_from(s, pat, pos + 1, start)
    }
}

/// The parts of `s` between the occurrences of `pat`, taken from left to
/// right without overlap: one part more than there are occurrences.
pub open spec fn split_on(s: Seq<u8>, pat: Seq<u8>) -> Seq<Seq<u8>> {
    parts_from(s, pat, 0, 0)
}

/// Cuts a text at every occurrence of `pat`.
pub fn split<'a>(s: &'a [u8], pat: &[u8]) -> (r: Vec<&'a [u8]>)
    requires
        pat@.len() > 0,
    ensures
        texts(r@) == split_on(s@, pat@),
        r@.len() > 0,
{
    let mut out: Vec<&[u8]> = Vec::new();
    let mut start: usize = 0;
    let mut pos: usize = 0;
    assert(texts(out@) =~= Seq::<Seq<u8>>::empty());
    while pat.len() <= s.len() - pos
        invariant
            start <= pos <= s@.len(),
            pat@.len() > 0,
            split_on(s@, pat@) == texts(out@) + parts_from(s@, pat@, pos as int, start as int),
        decreases s@.len() - pos,
    {
        if has_at(s, pos, pat) {
            let part = slice_subrange(s, start, pos);
            proof {
                assert(texts(out@.push(part)) =~= texts(out@) + seq![part@]);
            }
            out.push(part);
            pos = pos + pat.len();
            start = pos;
        } else {
            pos += 1;
        }
    }
    let part = slice_subrange(s, start, s.len());
    proof {
        assert(texts(out@.push(part)) =~= texts(out@) + seq![part@]);
    }
    out.push(part);
    out
}

/// The number that a text writes in the way of Rust's unsigned integers: a
/// `+`, if any, then decimal digits, at least one, and nothing else; at most `max`.
pub open spec fn unsigned(tok: Seq<u8>, max: int) -> Option<nat> {
    let d = if tok.len() > 0 && tok[0] == 43 {
        tok.subrange(1, tok.len() as int)
    } else {
        tok
    };
    if d.len() > 0 && all_digits(d) && decimal(d) <= max {
        Some(decimal(d))
    } else {
        None
    }
}

/// Reads a whole text as an unsigned number that is at most `max`.
pub fn parse_unsigned(tok: &[u8], max: u128) -> (r: Option<u128>)
    ensures
        match unsigned(tok@, max as int) {
            Some(v) => r == Some(v as u128),
            None => r is None,
        },
{
    let d = if tok.len() > 0 && tok[0] == 43 {
        slice_subrange(tok, 1, tok.len())
    } else {
        tok
    };
    if d.len() == 0 {
        return None;
    }
    let e = scan(d, 0, Class::Digit);
    proof {
        lemma_run_end(d@, 0, Class::Digit);
    }
    if e != d.len() {
        assert(!is_digit(d@[e as int]));
        return None;
    }
    parse_decimal(d, max)
}

/// The sum of the numbers of a list.
pub open spec fn sum(v: Seq<u32>) -> nat
    decreases v.len(),
{
    if v.len() == 0 {
        0
    } else {
        (sum(v.drop_last()) + v.last()) as nat
    }
}

/// The sum of the first few numbers is no more than that of all.
pub proof fn lemma_sum_prefix(v: Seq<u32>, k: int)
    requires
        0 <= k <= v.len(),
    ensures
        sum(v.take(k)) <= sum(v),
    decreases v.len(),
{
    if k == v.len() {
        assert(v.take(k) =~= v);
    } else {
        assert(v.drop_last().take(k) =~= v.take(k));
        lemma_sum_prefix(v.drop_last(), k);
    }
}

} // verus!
