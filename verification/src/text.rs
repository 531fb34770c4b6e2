//! Character-level text handling: the model of the `str` operations the
//! deployment logic relies on (`lines`, `trim`, `contains`, `replace` with an
//! empty replacement, integer parsing and printing), each with a verified
//! executable counterpart working on `Vec<char>`.
use vstd::prelude::*;
use vstd::utf8::*;

verus! {

broadcast use vstd::string::axiom_spec_iter, vstd::string::next_postcondition;

// ---------------------------------------------------------------------------
// Conversions between `String` / `&str` and `Vec<char>`
// ---------------------------------------------------------------------------

/// Appends one character to a string (`String::push`).
/// Trusted: the string afterwards holds its former characters followed by `c`.
#[verifier::external_body]
fn push_char(s: &mut String, c: char)
    ensures
        final(s)@ == old(s)@.push(c),
{
    s.push(c);
}

/// Decodes bytes as UTF-8 (`String::from_utf8`).
/// Trusted: the conversion succeeds exactly on well-formed UTF-8 and then holds
/// the decoded characters, as std's documentation states.
#[verifier::external_body]
pub(crate) fn utf8_to_string(bytes: Vec<u8>) -> (r: Option<String>)
    ensures
        r is Some <==> valid_utf8(bytes@),
        r matches Some(s) ==> s@ == decode_utf8(bytes@),
{
    String::from_utf8(bytes).ok()
}

/// The characters of a string slice.
pub fn chars_of(s: &str) -> (v: Vec<char>)
    ensures
        v@ == s@,
{
    let mut v: Vec<char> = Vec::new();
    for c in it: s.chars()
        invariant
            v@ == it.seq().take(it.index() as int),
    {
        v.push(c);
    }
    v
}

/// A string holding exactly the given characters.
pub fn string_of(v: &Vec<char>) -> (s: String)
    ensures
        s@ == v@,
{
    let mut s = String::new();
    let mut i: usize = 0;
    while i < v.len()
        invariant
            i <= v.len(),
            s@ == v@.take(i as int),
        decreases v.len() - i,
    {
        push_char(&mut s, v[i]);
        assert(v@.take(i as int).push(v@[i as int]) =~= v@.take(i + 1));
        i += 1;
    }
    assert(v@.take(v.len() as int) =~= v@);
    s
}

// ---------------------------------------------------------------------------
// Whitespace and trimming
// ---------------------------------------------------------------------------

/// The characters with the Unicode `White_Space` property (`char::is_whitespace`).
pub open spec fn is_space_char(c: char) -> bool {
    let u = c as u32;
    ||| 0x09 <= u <= 0x0d
    ||| u == 0x20
    ||| u == 0x85
    ||| u == 0xa0
    ||| u == 0x1680
    ||| 0x2000 <= u <= 0x200a
    ||| u == 0x2028
    ||| u == 0x2029
    ||| u == 0x202f
    ||| u == 0x205f
    ||| u == 0x3000
}

pub fn is_space(c: char) -> (b: bool)
    ensures
        b == is_space_char(c),
{
    let u = c as u32;
    (0x09 <= u && u <= 0x0d) || u == 0x20 || u == 0x85 || u == 0xa0 || u == 0x1680 || (0x2000 <= u
        && u <= 0x200a) || u == 0x2028 || u == 0x2029 || u == 0x202f || u == 0x205f || u == 0x3000
}

/// `s` without its leading whitespace.
pub open spec fn trim_start(s: Seq<char>) -> Seq<char>
    decreases s.len(),
{
    if s.len() > 0 && is_space_char(s[0]) {
        trim_start(s.drop_first())
    } else {
        s
    }
}

/// `s` without its trailing whitespace.
pub open spec fn trim_end(s: Seq<char>) -> Seq<char>
    decreases s.len(),
{
    if s.len() > 0 && is_space_char(s.last()) {
        trim_end(s.drop_last())
    } else {
        s
    }
}

/// `s` without leading and trailing whitespace (`str::trim`).
pub open spec fn trim(s: Seq<char>) -> Seq<char> {
    trim_end(trim_start(s))
}

/// The characters of `v` between positions `lo` and `hi`.
pub fn slice_of(v: &Vec<char>, lo: usize, hi: usize) -> (r: Vec<char>)
    requires
        lo <= hi <= v.len(),
    ensures
        r@ == v@.subrange(lo as int, hi as int),
{
    let mut r: Vec<char> = Vec::new();
    let mut i = lo;
    while i < hi
        invariant
            lo <= i <= hi <= v.len(),
            r@ == v@.subrange(lo as int, i as int),
        decreases hi - i,
    {
        r.push(v[i]);
        assert(v@.subrange(lo as int, i as int).push(v@[i as int]) =~= v@.subrange(
            lo as int,
            i + 1,
        ));
        i += 1;
    }
    r
}

pub fn trim_chars(v: &Vec<char>) -> (r: Vec<char>)
    ensures
        r@ == trim(v@),
{
    let n = v.len();
    let mut lo: usize = 0;
    assert(v@.skip(0) =~= v@);
    while lo < n && is_space(v[lo])
        invariant
            lo <= n == v.len(),
            trim_start(v@) == trim_start(v@.skip(lo as int)),
        decreases n - lo,
    {
        assert(v@.skip(lo as int).drop_first() =~= v@.skip(lo + 1));
        lo += 1;
    }
    assert(trim_start(v@.skip(lo as int)) == v@.skip(lo as int));
    let mut hi: usize = n;
    assert(v@.skip(lo as int) =~= v@.subrange(lo as int, n as int));
    while hi > lo && is_space(v[hi - 1])
        invariant
            lo <= hi <= n == v.len(),
            trim(v@) == trim_end(v@.subrange(lo as int, hi as int)),
        decreases hi,
    {
        assert(v@.subrange(lo as int, hi as int).drop_last() =~= v@.subrange(
            lo as int,
            hi - 1,
        ));
        hi -= 1;
    }
    slice_of(v, lo, hi)
}

// ---------------------------------------------------------------------------
// Lines
// ---------------------------------------------------------------------------

/// The pieces of `s` between newline characters; there is always at least one,
/// and the last is what follows the final newline.
pub open spec fn pieces(s: Seq<char>) -> Seq<Seq<char>>
    decreases s.len(),
{
    if s.len() == 0 {
        seq![Seq::<char>::empty()]
    } else {
        let p = pieces(s.drop_last());
        if s.last() == '\n' {
            p.push(Seq::<char>::empty())
        } else {
            p.update(p.len() - 1, p.last().push(s.last()))
        }
    }
}

/// A line with one trailing carriage return removed.
pub open spec fn strip_cr(l: Seq<char>) -> Seq<char> {
    if l.len() > 0 && l.last() == '\r' {
        l.drop_last()
    } else {
        l
    }
}

/// The lines of `s` as `str::lines` gives them: split at `\n`, a `\r` before a
/// `\n` dropped, and no empty line after a final `\n`.
pub open spec fn lines(s: Seq<char>) -> Seq<Seq<char>> {
    let p = pieces(s);
    let n = p.len() - 1;
    let ended = Seq::new(n as nat, |j: int| strip_cr(p[j]));
    if p[n].len() == 0 {
        ended
    } else {
        ended.push(p[n])
    }
}

pub proof fn lemma_pieces_nonempty(s: Seq<char>)
    ensures
        pieces(s).len() >= 1,
    decreases s.len(),
{
    if s.len() > 0 {
        lemma_pieces_nonempty(s.drop_last());
    }
}

/// How the pieces of a concatenation are made of the pieces of its parts:
/// the last piece of `s` and the first of `t` join.
pub proof fn lemma_pieces_concat(s: Seq<char>, t: Seq<char>)
    ensures
        pieces(s + t) == pieces(s).drop_last() + seq![pieces(s).last() + pieces(t)[0]] + pieces(
            t,
        ).skip(1),
    decreases t.len(),
{
    lemma_pieces_nonempty(s);
    lemma_pieces_nonempty(t);
    if t.len() == 0 {
        assert(s + t =~= s);
        assert(pieces(s).last() + pieces(t)[0] =~= pieces(s).last());
        assert(pieces(s).drop_last() + seq![pieces(s).last()] + pieces(t).skip(1) =~= pieces(s));
    } else {
        let u = t.drop_last();
        let c = t.last();
        lemma_pieces_concat(s, u);
        lemma_pieces_nonempty(u);
        assert((s + t).drop_last() =~= s + u);
        assert((s + t).last() == c);
        let pu = pieces(u);
        let q = pieces(s).drop_last() + seq![pieces(s).last() + pu[0]] + pu.skip(1);
        assert(pieces(s + u) == q);
        if c == '\n' {
            assert(pieces(t) == pu.push(Seq::<char>::empty()));
            assert(pieces(t)[0] == pu[0]);
            assert(pieces(t).skip(1) =~= pu.skip(1).push(Seq::<char>::empty()));
            assert(q.push(Seq::<char>::empty()) =~= pieces(s).drop_last() + seq![
                pieces(s).last() + pieces(t)[0],
            ] + pieces(t).skip(1));
        } else {
            assert(pieces(t) == pu.update(pu.len() - 1, pu.last().push(c)));
            let r = pieces(s).drop_last() + seq![pieces(s).last() + pieces(t)[0]] + pieces(t).skip(
                1,
            );
            if pu.len() == 1 {
                assert(pieces(t)[0] == pu[0].push(c));
                assert(pieces(t).skip(1) =~= Seq::<Seq<char>>::empty());
                assert(pieces(s).last() + pu[0].push(c) =~= (pieces(s).last() + pu[0]).push(c));
                assert(q.update(q.len() - 1, q.last().push(c)) =~= r);
            } else {
                assert(pieces(t)[0] == pu[0]);
                assert(pieces(t).skip(1) =~= pu.skip(1).update(
                    pu.len() - 2,
                    pu.last().push(c),
                ));
                assert(q.update(q.len() - 1, q.last().push(c)) =~= r);
            }
        }
    }
}

/// Text that is empty or ends with a newline holds only whole lines.
pub open spec fn ends_lines(s: Seq<char>) -> bool {
    s.len() == 0 || s.last() == '\n'
}

pub proof fn lemma_pieces_of_whole_lines(s: Seq<char>)
    requires
        ends_lines(s),
    ensures
        pieces(s).last() == Seq::<char>::empty(),
{
    if s.len() > 0 {
        lemma_pieces_nonempty(s.drop_last());
    }
}

/// The lines of text made of whole lines followed by more text are the lines
/// of the one followed by the lines of the other.
pub proof fn lemma_lines_concat(s: Seq<char>, t: Seq<char>)
    requires
        ends_lines(s),
    ensures
        lines(s + t) == lines(s) + lines(t),
{
    lemma_pieces_concat(s, t);
    lemma_pieces_of_whole_lines(s);
    lemma_pieces_nonempty(s);
    lemma_pieces_nonempty(t);
    let ps = pieces(s);
    let pt = pieces(t);
    let d = ps.drop_last();
    assert(Seq::<char>::empty() + pt[0] =~= pt[0]);
    assert(pieces(s + t) =~= d + pt);
    let p = d + pt;
    let n = p.len() - 1;
    assert(p[n] == pt[pt.len() - 1]);
    assert(lines(s) =~= Seq::new(d.len(), |j: int| strip_cr(ps[j])));
    let et = Seq::new((pt.len() - 1) as nat, |j: int| strip_cr(pt[j]));
    let ep = Seq::new(n as nat, |j: int| strip_cr(p[j]));
    assert(ep =~= lines(s) + et);
    if pt[pt.len() - 1].len() == 0 {
        assert(lines(s + t) == ep);
        assert(lines(t) == et);
    } else {
        assert(lines(s + t) == ep.push(p[n]));
        assert(lines(t) == et.push(pt[pt.len() - 1]));
        assert(ep.push(p[n]) =~= lines(s) + et.push(pt[pt.len() - 1]));
    }
}

/// A line without line-break characters, ended by a newline, is one line.
pub proof fn lemma_lines_single(x: Seq<char>)
    requires
        forall|i: int| 0 <= i < x.len() ==> #[trigger] x[i] != '\n' && x[i] != '\r',
    ensures
        lines(x.push('\n')) == seq![x],
{
    lemma_pieces_single(x);
    assert(x.push('\n').drop_last() =~= x);
    assert(pieces(x.push('\n')) =~= seq![x, Seq::<char>::empty()]);
    if x.len() > 0 {
        assert(x.last() != '\r');
    }
    assert(lines(x.push('\n')) =~= seq![x]);
}

proof fn lemma_pieces_single(x: Seq<char>)
    requires
        forall|i: int| 0 <= i < x.len() ==> #[trigger] x[i] != '\n' && x[i] != '\r',
    ensures
        pieces(x) == seq![x],
    decreases x.len(),
{
    if x.len() > 0 {
        assert forall|i: int| 0 <= i < x.drop_last().len() implies #[trigger] x.drop_last()[i]
            != '\n' && x.drop_last()[i] != '\r' by {
            assert(x.drop_last()[i] == x[i]);
        }
        lemma_pieces_single(x.drop_last());
        assert(x[x.len() - 1] != '\n');
        assert(x.drop_last().push(x.last()) =~= x);
        assert(pieces(x) =~= seq![x]);
    } else {
        assert(x =~= Seq::<char>::empty());
    }
}

fn strip_cr_chars(l: &Vec<char>) -> (r: Vec<char>)
    ensures
        r@ == strip_cr(l@),
{
    if l.len() > 0 && l[l.len() - 1] == '\r' {
        slice_of(l, 0, l.len() - 1)
    } else {
        slice_of(l, 0, l.len())
    }
}

/// Splits text into its lines.
pub fn split_lines(v: &Vec<char>) -> (r: Vec<Vec<char>>)
    ensures
        r@.len() == lines(v@).len(),
        forall|j: int| 0 <= j < r@.len() ==> #[trigger] r@[j]@ == lines(v@)[j],
{
    let n = v.len();
    let mut done: Vec<Vec<char>> = Vec::new();
    let mut cur: Vec<char> = Vec::new();
    let mut i: usize = 0;
    assert(v@.take(0) =~= Seq::<char>::empty());
    while i < n
        invariant
            i <= n == v.len(),
            pieces(v@.take(i as int)).len() == done@.len() + 1,
            forall|j: int|
                0 <= j < done@.len() ==> #[trigger] done@[j]@ == pieces(v@.take(i as int))[j],
            cur@ == pieces(v@.take(i as int)).last(),
        decreases n - i,
    {
        let c = v[i];
        assert(v@.take(i + 1).drop_last() =~= v@.take(i as int));
        assert(v@.take(i + 1).last() == c);
        proof {
            lemma_pieces_nonempty(v@.take(i as int));
        }
        if c == '\n' {
            let finished = cur;
            done.push(finished);
            cur = Vec::new();
        } else {
            cur.push(c);
        }
        i += 1;
    }
    assert(v@.take(n as int) =~= v@);
    let ghost p = pieces(v@);
    let mut r: Vec<Vec<char>> = Vec::new();
    let mut j: usize = 0;
    while j < done.len()
        invariant
            j <= done@.len(),
            p.len() == done@.len() + 1,
            forall|k: int| 0 <= k < done@.len() ==> #[trigger] done@[k]@ == p[k],
            r@.len() == j,
            forall|k: int| 0 <= k < j ==> #[trigger] r@[k]@ == strip_cr(p[k]),
        decreases done@.len() - j,
    {
        let l = strip_cr_chars(&done[j]);
        r.push(l);
        j += 1;
    }
    if cur.len() > 0 {
        r.push(cur);
    }
    r
}

/// Splits text into its lines, each as a string.
pub fn split_lines_to_strings(v: &Vec<char>) -> (r: Vec<String>)
    ensures
        r@.len() == lines(v@).len(),
        forall|j: int| 0 <= j < r@.len() ==> #[trigger] r@[j]@ == lines(v@)[j],
{
    let ls = split_lines(v);
    let mut r: Vec<String> = Vec::new();
    let mut j: usize = 0;
    while j < ls.len()
        invariant
            j <= ls@.len() == lines(v@).len(),
            forall|k: int| 0 <= k < ls@.len() ==> #[trigger] ls@[k]@ == lines(v@)[k],
            r@.len() == j,
            forall|k: int| 0 <= k < j ==> #[trigger] r@[k]@ == lines(v@)[k],
        decreases ls@.len() - j,
    {
        let s = string_of(&ls[j]);
        r.push(s);
        j += 1;
    }
    r
}

// ---------------------------------------------------------------------------
// Substrings
// ---------------------------------------------------------------------------

/// `pat` occurs in `s` starting at position `i`.
pub open spec fn occurs_at(s: Seq<char>, i: int, pat: Seq<char>) -> bool {
    0 <= i && i + pat.len() <= s.len() && s.subrange(i, i + pat.len()) == pat
}

/// `pat` occurs somewhere in `s` (`str::contains`).
pub open spec fn contains(s: Seq<char>, pat: Seq<char>) -> bool {
    exists|i: int| #[trigger] occurs_at(s, i, pat)
}

/// `s` with every occurrence of `pat` removed, matches taken from left to right
/// without overlap (`str::replace` with an empty replacement).
pub open spec fn remove_all(s: Seq<char>, pat: Seq<char>) -> Seq<char>
    decreases s.len(),
{
    if s.len() == 0 {
        s
    } else if pat.len() > 0 && occurs_at(s, 0, pat) {
        remove_all(s.skip(pat.len() as int), pat)
    } else {
        seq![s[0]] + remove_all(s.drop_first(), pat)
    }
}

/// `pat` occurs in `s` exactly when `s` is some text, then `pat`, then some
/// more text.
pub proof fn lemma_contains_iff_split(s: Seq<char>, pat: Seq<char>)
    ensures
        contains(s, pat) <==> exists|a: Seq<char>, b: Seq<char>| #[trigger] (a + pat + b) == s,
{
    if contains(s, pat) {
        let i = choose|i: int| #[trigger] occurs_at(s, i, pat);
        let a = s.take(i);
        let b = s.skip(i + pat.len());
        assert(a + pat + b =~= s);
    }
    if exists|a: Seq<char>, b: Seq<char>| #[trigger] (a + pat + b) == s {
        let (a, b) = choose|a: Seq<char>, b: Seq<char>| #[trigger] (a + pat + b) == s;
        assert(s.subrange(a.len() as int, (a.len() + pat.len()) as int) =~= pat);
        assert(occurs_at(s, a.len() as int, pat));
    }
}

pub fn occurs_at_exec(v: &Vec<char>, i: usize, pat: &Vec<char>) -> (b: bool)
    ensures
        b == occurs_at(v@, i as int, pat@),
{
    if i > v.len() || pat.len() > v.len() - i {
        return false;
    }
    let mut k: usize = 0;
    while k < pat.len()
        invariant
            i + pat.len() <= v.len(),
            k <= pat.len(),
            forall|m: int| 0 <= m < k ==> v@[i + m] == pat@[m],
        decreases pat.len() - k,
    {
        if v[i + k] != pat[k] {
            assert(v@.subrange(i as int, i + pat.len())[k as int] != pat@[k as int]);
            return false;
        }
        k += 1;
    }
    assert(v@.subrange(i as int, i + pat.len()) =~= pat@);
    true
}

pub fn contains_exec(v: &Vec<char>, pat: &Vec<char>) -> (b: bool)
    ensures
        b == contains(v@, pat@),
{
    if pat.len() > v.len() {
        assert forall|i: int| !occurs_at(v@, i, pat@) by {}
        return false;
    }
    let last = v.len() - pat.len();
    let mut i: usize = 0;
    loop
        invariant
            pat.len() <= v.len(),
            last == v.len() - pat.len(),
            i <= last,
            forall|m: int| 0 <= m < i ==> !#[trigger] occurs_at(v@, m, pat@),
        ensures
            i == last,
            forall|m: int| 0 <= m <= i ==> !#[trigger] occurs_at(v@, m, pat@),
        decreases last - i,
    {
        if occurs_at_exec(v, i, pat) {
            return true;
        }
        if i == last {
            break;
        }
        i += 1;
    }
    assert forall|m: int| !#[trigger] occurs_at(v@, m, pat@) by {
        if 0 <= m <= i {
        }
    }
    false
}

pub fn remove_all_exec(v: &Vec<char>, pat: &Vec<char>) -> (r: Vec<char>)
    ensures
        r@ == remove_all(v@, pat@),
{
    let n = v.len();
    let mut r: Vec<char> = Vec::new();
    let mut i: usize = 0;
    assert(v@.skip(0) =~= v@);
    while i < n
        invariant
            i <= n == v.len(),
            remove_all(v@, pat@) == r@ + remove_all(v@.skip(i as int), pat@),
        decreases n - i,
    {
        let ghost rest = v@.skip(i as int);
        if pat.len() > 0 && occurs_at_exec(v, i, pat) {
            assert(rest.subrange(0, pat@.len() as int) =~= v@.subrange(
                i as int,
                i + pat@.len(),
            ));
            assert(occurs_at(rest, 0, pat@));
            assert(rest.skip(pat@.len() as int) =~= v@.skip(i + pat@.len()));
            i += pat.len();
        } else {
            proof {
                if pat@.len() > 0 && occurs_at(rest, 0, pat@) {
                    assert(rest.subrange(0, pat@.len() as int) =~= v@.subrange(
                        i as int,
                        i + pat@.len(),
                    ));
                }
            }
            assert(rest.drop_first() =~= v@.skip(i + 1));
            let ghost before = r@;
            r.push(v[i]);
            assert(before + (seq![v@[i as int]] + remove_all(rest.drop_first(), pat@))
                =~= r@ + remove_all(rest.drop_first(), pat@));
            i += 1;
        }
    }
    assert(v@.skip(n as int) =~= Seq::<char>::empty());
    assert(r@ + Seq::<char>::empty() =~= r@);
    r
}

// ---------------------------------------------------------------------------
// Decimal integers
// ---------------------------------------------------------------------------

pub open spec fn is_digit_char(c: char) -> bool {
    48 <= c as u32 <= 57
}

pub open spec fn digit_of(c: char) -> int {
    c as u32 - 48
}

pub open spec fn all_digits(s: Seq<char>) -> bool {
    forall|i: int| 0 <= i < s.len() ==> #[trigger] is_digit_char(s[i])
}

/// The value of a string of decimal digits.
pub open spec fn digits_value(s: Seq<char>) -> int
    decreases s.len(),
{
    if s.len() == 0 {
        0
    } else {
        digits_value(s.drop_last()) * 10 + digit_of(s.last())
    }
}

/// `i32`'s `FromStr`: an optional `+` or `-`, then one or more decimal
/// digits, the value within the range of `i32`; `None` where that fails.
pub open spec fn parse_i32(s: Seq<char>) -> Option<i32> {
    if s.len() == 0 {
        None
    } else {
        let signed = s[0] == '+' || s[0] == '-';
        let ds = if signed {
            s.drop_first()
        } else {
            s
        };
        let v = if s[0] == '-' {
            -digits_value(ds)
        } else {
            digits_value(ds)
        };
        if ds.len() == 0 || !all_digits(ds) || v < i32::MIN || v > i32::MAX {
            None
        } else {
            Some(v as i32)
        }
    }
}

pub proof fn lemma_digits_value_prefix(s: Seq<char>, k: int)
    requires
        all_digits(s),
        0 <= k <= s.len(),
    ensures
        0 <= digits_value(s.take(k)) <= digits_value(s),
    decreases s.len(),
{
    if s.len() > 0 {
        assert(all_digits(s.drop_last())) by {
            assert forall|i: int| 0 <= i < s.len() - 1 implies #[trigger] is_digit_char(
                s.drop_last()[i],
            ) by {
                assert(s.drop_last()[i] == s[i]);
                assert(is_digit_char(s[i]));
            }
        }
        assert(is_digit_char(s[s.len() - 1]));
    }
    if k == s.len() {
        assert(s.take(k) =~= s);
        if s.len() > 0 {
            lemma_digits_value_prefix(s.drop_last(), s.len() - 1);
            assert(s.drop_last().take(s.len() - 1) =~= s.drop_last());
        }
    } else {
        lemma_digits_value_prefix(s.drop_last(), k);
        assert(s.drop_last().take(k) =~= s.take(k));
        lemma_digits_value_prefix(s.drop_last(), s.len() - 1);
        assert(s.drop_last().take(s.len() - 1) =~= s.drop_last());
    }
}

pub fn parse_i32_exec(v: &Vec<char>) -> (r: Option<i32>)
    ensures
        r == parse_i32(v@),
{
    let n = v.len();
    if n == 0 {
        return None;
    }
    let neg = v[0] == '-';
    let start: usize = if v[0] == '+' || v[0] == '-' {
        1
    } else {
        0
    };
    let ghost ds = if v@[0] == '+' || v@[0] == '-' {
        v@.drop_first()
    } else {
        v@
    };
    assert(ds =~= v@.skip(start as int));
    if start == n {
        return None;
    }
    let mut acc: u64 = 0;
    let mut i: usize = start;
    assert(ds.take(0) =~= Seq::<char>::empty());
    while i < n
        invariant
            start <= i <= n == v.len(),
            n > 0,
            ds == v@.skip(start as int),
            ds == (if v@[0] == '+' || v@[0] == '-' {
                v@.drop_first()
            } else {
                v@
            }),
            all_digits(ds.take(i - start)),
            acc == digits_value(ds.take(i - start)),
            acc <= 2147483648,
        decreases n - i,
    {
        let c = v[i];
        let u = c as u32;
        assert(ds[i - start] == c);
        if u < 48 || u > 57 {
            assert(!is_digit_char(ds[i - start]));
            assert(!all_digits(ds));
            return None;
        }
        let d = (u - 48) as u64;
        assert(ds.take(i - start + 1).drop_last() =~= ds.take(i - start));
        assert(ds.take(i - start + 1).last() == c);
        assert(all_digits(ds.take(i - start + 1)));
        acc = acc * 10 + d;
        i += 1;
        if acc > 2147483648 {
            proof {
                if all_digits(ds) {
                    lemma_digits_value_prefix(ds, i - start);
                    assert(digits_value(ds) > 2147483648);
                }
            }
            return None;
        }
    }
    assert(ds.take(n - start) =~= ds);
    if neg {
        if acc == 2147483648 {
            Some(i32::MIN)
        } else {
            Some(-(acc as i32))
        }
    } else {
        if acc > 2147483647 {
            None
        } else {
            Some(acc as i32)
        }
    }
}

pub open spec fn digit_char(d: nat) -> char {
    (d + 48) as char
}

/// The decimal digits of a natural number, most significant first.
pub open spec fn nat_digits(n: nat) -> Seq<char>
    decreases n,
{
    if n < 10 {
        seq![digit_char(n)]
    } else {
        nat_digits(n / 10).push(digit_char(n % 10))
    }
}

/// The decimal text of an integer, with a leading `-` when negative (how
/// `Display` prints an integer).
pub open spec fn decimal(n: int) -> Seq<char> {
    if n < 0 {
        seq!['-'] + nat_digits((-n) as nat)
    } else {
        nat_digits(n as nat)
    }
}

fn digit_to_char(d: u64) -> (c: char)
    requires
        d < 10,
    ensures
        c == digit_char(d as nat),
{
    match d {
        0 => '0',
        1 => '1',
        2 => '2',
        3 => '3',
        4 => '4',
        5 => '5',
        6 => '6',
        7 => '7',
        8 => '8',
        _ => '9',
    }
}

/// The decimal text of an integer.
pub fn decimal_chars(n: i32) -> (r: Vec<char>)
    ensures
        r@ == decimal(n as int),
{
    let mut q: u64 = if n < 0 {
        (-(n as i64)) as u64
    } else {
        n as u64
    };
    let ghost m: nat = q as nat;
    let mut tail: Vec<char> = Vec::new();
    while q >= 10
        invariant
            q <= 2147483648,
            nat_digits(m) == nat_digits(q as nat) + tail@,
        decreases q,
    {
        let c = digit_to_char(q % 10);
        let ghost old_tail = tail@;
        assert(nat_digits(q as nat) == nat_digits((q / 10) as nat).push(
            digit_char((q % 10) as nat),
        ));
        tail.insert(0, c);
        assert(tail@ =~= seq![c] + old_tail);
        assert(nat_digits((q / 10) as nat).push(c) + old_tail =~= nat_digits((q / 10) as nat)
            + tail@);
        q = q / 10;
    }
    let c = digit_to_char(q);
    tail.insert(0, c);
    if n < 0 {
        tail.insert(0, '-');
    }
    tail
}

/// The decimal text of an integer as a string (`i32::to_string`).
pub fn decimal_string(n: i32) -> (r: String)
    ensures
        r@ == decimal(n as int),
{
    string_of(&decimal_chars(n))
}

} // verus!
