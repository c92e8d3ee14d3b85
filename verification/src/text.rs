//! Character-level text handling: the splitting, trimming and searching that
//! the command-line output formats of `nmcli`, `nmap` and `ip` are read with.
//!
//! Every exec function here works on `Vec<char>` and is proved against a spec
//! function over `Seq<char>` that says what `str`'s method of the same name
//! computes.
use vstd::prelude::*;

verus! {

// ---------------------------------------------------------------------------
// Specifications
// ---------------------------------------------------------------------------

/// The characters for which `char::is_whitespace` holds: the Unicode
/// `White_Space` property.
pub open spec fn is_ws(c: char) -> bool {
    ||| ('\u{9}' <= c && c <= '\u{d}')
    ||| c == ' '
    ||| c == '\u{85}'
    ||| c == '\u{a0}'
    ||| c == '\u{1680}'
    ||| ('\u{2000}' <= c && c <= '\u{200a}')
    ||| c == '\u{2028}'
    ||| c == '\u{2029}'
    ||| c == '\u{202f}'
    ||| c == '\u{205f}'
    ||| c == '\u{3000}'
}

/// `s.split(sep)`: the pieces between occurrences of `sep`, empty pieces
/// included; there is always at least one piece.
pub open spec fn split(s: Seq<char>, sep: char) -> Seq<Seq<char>>
    decreases s.len(),
{
    if s.len() == 0 {
        seq![Seq::<char>::empty()]
    } else {
        let prev = split(s.drop_last(), sep);
        if s.last() == sep {
            prev.push(Seq::<char>::empty())
        } else {
            prev.update(prev.len() - 1, prev.last().push(s.last()))
        }
    }
}

/// A line without the `'\r'` of a `"\r\n"` line ending.
pub open spec fn strip_cr(l: Seq<char>) -> Seq<char> {
    if l.len() > 0 && l.last() == '\r' {
        l.drop_last()
    } else {
        l
    }
}

/// `s.lines()`: the pieces between `'\n'`; a piece that a `'\n'` ends
/// loses a `'\r'` before it, and a final empty piece (after a last `'\n'`,
/// or of an empty text) is no line.
pub open spec fn lines(s: Seq<char>) -> Seq<Seq<char>> {
    let pieces = split(s, '\n');
    let ended = pieces.drop_last().map_values(|l: Seq<char>| strip_cr(l));
    if pieces.last().len() == 0 {
        ended
    } else {
        ended.push(pieces.last())
    }
}

/// There is always at least one piece.
pub proof fn lemma_split_nonempty(s: Seq<char>, sep: char)
    ensures
        split(s, sep).len() >= 1,
    decreases s.len(),
{
    if s.len() > 0 {
        lemma_split_nonempty(s.drop_last(), sep);
    }
}

/// A set of characters that trimming removes from the ends of a text.
pub enum Strip {
    /// The characters for which `char::is_whitespace` holds.
    Whitespace,
    /// One given character.
    Char(char),
}

/// Whether `c` is one of the characters that `strip` removes.
pub open spec fn strips(strip: Strip, c: char) -> bool {
    match strip {
        Strip::Whitespace => is_ws(c),
        Strip::Char(x) => c == x,
    }
}

/// `s` without the leading characters that `strip` removes.
pub open spec fn trim_start_by(s: Seq<char>, strip: Strip) -> Seq<char>
    decreases s.len(),
{
    if s.len() > 0 && strips(strip, s[0]) {
        trim_start_by(s.drop_first(), strip)
    } else {
        s
    }
}

/// `s` without the trailing characters that `strip` removes.
pub open spec fn trim_end_by(s: Seq<char>, strip: Strip) -> Seq<char>
    decreases s.len(),
{
    if s.len() > 0 && strips(strip, s.last()) {
        trim_end_by(s.drop_last(), strip)
    } else {
        s
    }
}

/// `s.trim()` for `Strip::Whitespace`, `s.trim_matches(c)` for `Strip::Char(c)`.
pub open spec fn trim_by(s: Seq<char>, strip: Strip) -> Seq<char> {
    trim_end_by(trim_start_by(s, strip), strip)
}

/// `s.trim()`.
pub open spec fn trim(s: Seq<char>) -> Seq<char> {
    trim_by(s, Strip::Whitespace)
}

/// The state of `split_whitespace` after reading `s`: the finished words and
/// the word being read.
pub open spec fn words_state(s: Seq<char>) -> (Seq<Seq<char>>, Seq<char>)
    decreases s.len(),
{
    if s.len() == 0 {
        (Seq::<Seq<char>>::empty(), Seq::<char>::empty())
    } else {
        let (done, cur) = words_state(s.drop_last());
        if is_ws(s.last()) {
            if cur.len() > 0 {
                (done.push(cur), Seq::<char>::empty())
            } else {
                (done, cur)
            }
        } else {
            (done, cur.push(s.last()))
        }
    }
}

/// `s.split_whitespace()`: the maximal runs of non-whitespace characters.
pub open spec fn words(s: Seq<char>) -> Seq<Seq<char>> {
    let (done, cur) = words_state(s);
    if cur.len() > 0 {
        done.push(cur)
    } else {
        done
    }
}

/// Whether `pat` occurs in `s` starting at index `i`.
pub open spec fn matches_at(s: Seq<char>, i: int, pat: Seq<char>) -> bool {
    0 <= i && i + pat.len() <= s.len() && s.subrange(i, i + pat.len()) == pat
}

/// `s.contains(pat)`.
pub open spec fn contains(s: Seq<char>, pat: Seq<char>) -> bool {
    exists|i: int| #[trigger] matches_at(s, i, pat)
}

/// `s.replace(pat, rep)` for a non-empty `pat`: each occurrence of `pat`,
/// found from left to right without overlap, becomes `rep`.
pub open spec fn replace(s: Seq<char>, pat: Seq<char>, rep: Seq<char>) -> Seq<char>
    decreases s.len(),
{
    if pat.len() == 0 || s.len() == 0 {
        s
    } else if matches_at(s, 0, pat) {
        rep + replace(s.skip(pat.len() as int), pat, rep)
    } else {
        seq![s[0]] + replace(s.drop_first(), pat, rep)
    }
}

/// `parts.join(sep)`.
pub open spec fn join(parts: Seq<Seq<char>>, sep: Seq<char>) -> Seq<char>
    decreases parts.len(),
{
    if parts.len() == 0 {
        Seq::<char>::empty()
    } else if parts.len() == 1 {
        parts[0]
    } else {
        join(parts.drop_last(), sep) + sep + parts.last()
    }
}

/// The first index at or after `i` where `x` stands in `s`.
pub open spec fn position_from<T>(s: Seq<T>, x: T, i: int) -> Option<int>
    decreases s.len() - i,
{
    if i < 0 || i >= s.len() {
        None
    } else if s[i] == x {
        Some(i)
    } else {
        position_from(s, x, i + 1)
    }
}

/// The first index where `x` stands in `s` (`Iterator::position`).
pub open spec fn position<T>(s: Seq<T>, x: T) -> Option<int> {
    position_from(s, x, 0)
}

/// `s.splitn(2, c)` when it gives two pieces: the text before the first `c`
/// and the text after it; `None` where `c` does not occur.
pub open spec fn split_once(s: Seq<char>, c: char) -> Option<(Seq<char>, Seq<char>)> {
    match position(s, c) {
        Some(k) => Some((s.take(k), s.skip(k + 1))),
        None => None,
    }
}

proof fn lemma_words_state_nonempty(s: Seq<char>)
    ensures
        forall|i: int| 0 <= i < words_state(s).0.len() ==> #[trigger] words_state(s).0[i].len() > 0,
    decreases s.len(),
{
    if s.len() > 0 {
        lemma_words_state_nonempty(s.drop_last());
        let prev = words_state(s.drop_last());
        let cur = words_state(s);
        assert forall|i: int| 0 <= i < cur.0.len() implies #[trigger] cur.0[i].len() > 0 by {
            if i < prev.0.len() {
                assert(cur.0[i] == prev.0[i]);
            }
        }
    }
}

/// No word is empty.
pub proof fn lemma_words_nonempty(s: Seq<char>)
    ensures
        forall|i: int| 0 <= i < words(s).len() ==> #[trigger] words(s)[i].len() > 0,
{
    lemma_words_state_nonempty(s);
}

/// `s` holds no whitespace character.
pub open spec fn no_ws(s: Seq<char>) -> bool {
    forall|i: int| 0 <= i < s.len() ==> !is_ws(#[trigger] s[i])
}

proof fn lemma_words_state_no_ws(s: Seq<char>)
    ensures
        no_ws(words_state(s).1),
        forall|i: int| 0 <= i < words_state(s).0.len() ==> no_ws(#[trigger] words_state(s).0[i]),
    decreases s.len(),
{
    if s.len() > 0 {
        lemma_words_state_no_ws(s.drop_last());
        let prev = words_state(s.drop_last());
        let cur = words_state(s);
        assert forall|i: int| 0 <= i < cur.0.len() implies no_ws(#[trigger] cur.0[i]) by {
            if i < prev.0.len() {
                assert(cur.0[i] == prev.0[i]);
            }
        }
        if !is_ws(s.last()) {
            assert forall|i: int| 0 <= i < cur.1.len() implies !is_ws(#[trigger] cur.1[i]) by {
                if i < prev.1.len() {
                    assert(cur.1[i] == prev.1[i]);
                }
            }
        }
    }
}

/// No word holds whitespace.
pub proof fn lemma_words_no_ws(s: Seq<char>)
    ensures
        forall|i: int| 0 <= i < words(s).len() ==> no_ws(#[trigger] words(s)[i]),
{
    lemma_words_state_no_ws(s);
}

/// Trimming keeps a text free of whitespace.
pub proof fn lemma_trim_no_ws(s: Seq<char>, strip: Strip)
    requires
        no_ws(s),
    ensures
        no_ws(trim_start_by(s, strip)),
        no_ws(trim_end_by(s, strip)),
        no_ws(trim_by(s, strip)),
    decreases s.len(),
{
    if s.len() > 0 {
        assert(no_ws(s.drop_first())) by {
            assert forall|i: int| 0 <= i < s.drop_first().len() implies !is_ws(
                #[trigger] s.drop_first()[i],
            ) by {
                assert(s.drop_first()[i] == s[i + 1]);
            }
        }
        assert(no_ws(s.drop_last())) by {
            assert forall|i: int| 0 <= i < s.drop_last().len() implies !is_ws(
                #[trigger] s.drop_last()[i],
            ) by {
                assert(s.drop_last()[i] == s[i]);
            }
        }
        lemma_trim_no_ws(s.drop_first(), strip);
        lemma_trim_no_ws(s.drop_last(), strip);
    }
    lemma_trim_end_no_ws(trim_start_by(s, strip), strip);
}

proof fn lemma_trim_end_no_ws(s: Seq<char>, strip: Strip)
    requires
        no_ws(s),
    ensures
        no_ws(trim_end_by(s, strip)),
    decreases s.len(),
{
    if s.len() > 0 {
        assert(no_ws(s.drop_last())) by {
            assert forall|i: int| 0 <= i < s.drop_last().len() implies !is_ws(
                #[trigger] s.drop_last()[i],
            ) by {
                assert(s.drop_last()[i] == s[i]);
            }
        }
        lemma_trim_end_no_ws(s.drop_last(), strip);
    }
}

/// `c` does not occur in `s`.
pub open spec fn lacks(s: Seq<char>, c: char) -> bool {
    forall|i: int| 0 <= i < s.len() ==> s[i] != c
}

/// Replacing a pattern that does not occur changes nothing.
pub proof fn lemma_replace_absent(s: Seq<char>, pat: Seq<char>, rep: Seq<char>)
    requires
        pat.len() > 0,
        !contains(s, pat),
    ensures
        replace(s, pat, rep) == s,
    decreases s.len(),
{
    if s.len() > 0 {
        assert(!matches_at(s, 0, pat));
        let t = s.drop_first();
        assert forall|i: int| !#[trigger] matches_at(t, i, pat) by {
            if matches_at(t, i, pat) {
                assert(t.subrange(i, i + pat.len()) =~= s.subrange(i + 1, i + 1 + pat.len()));
                assert(matches_at(s, i + 1, pat));
            }
        }
        lemma_replace_absent(t, pat, rep);
        assert(seq![s[0]] + t =~= s);
    }
}

/// A text without the first character of `pat` does not contain `pat`.
pub proof fn lemma_lacks_not_contains(s: Seq<char>, pat: Seq<char>)
    requires
        pat.len() > 0,
        lacks(s, pat[0]),
    ensures
        !contains(s, pat),
{
    assert forall|i: int| !#[trigger] matches_at(s, i, pat) by {
        if matches_at(s, i, pat) {
            assert(s.subrange(i, i + pat.len())[0] == s[i]);
        }
    }
}

/// A text without the separator is one piece.
pub proof fn lemma_split_single(x: Seq<char>, sep: char)
    requires
        lacks(x, sep),
    ensures
        split(x, sep) == seq![x],
    decreases x.len(),
{
    if x.len() > 0 {
        assert(lacks(x.drop_last(), sep));
        lemma_split_single(x.drop_last(), sep);
        assert(x.drop_last().push(x.last()) =~= x);
        assert(x.last() != sep);
        assert(seq![x.drop_last()].update(0, x.drop_last().push(x.last())) =~= seq![x]);
    } else {
        assert(x =~= Seq::<char>::empty());
    }
}

/// Splitting at a separator between two texts splits each of them.
pub proof fn lemma_split_concat(x: Seq<char>, y: Seq<char>, sep: char)
    ensures
        split(x + seq![sep] + y, sep) == split(x, sep) + split(y, sep),
    decreases y.len(),
{
    lemma_split_nonempty(x, sep);
    if y.len() == 0 {
        assert(x + seq![sep] + y =~= x.push(sep));
        assert((x + seq![sep] + y).drop_last() =~= x);
        assert(split(x, sep).push(Seq::<char>::empty()) =~= split(x, sep) + split(y, sep));
    } else {
        let z = x + seq![sep] + y;
        assert(z.drop_last() =~= x + seq![sep] + y.drop_last());
        assert(z.last() == y.last());
        lemma_split_concat(x, y.drop_last(), sep);
        lemma_split_nonempty(y.drop_last(), sep);
        let a = split(x, sep);
        let b = split(y.drop_last(), sep);
        if y.last() == sep {
            assert((a + b).push(Seq::<char>::empty()) =~= a + b.push(Seq::<char>::empty()));
        } else {
            assert((a + b).update((a + b).len() - 1, (a + b).last().push(y.last())) =~= a
                + b.update(b.len() - 1, b.last().push(y.last())));
        }
    }
}

/// Joining pieces that lack a character, with a separator that lacks it,
/// gives a text that lacks it.
pub proof fn lemma_join_lacks(parts: Seq<Seq<char>>, sep: Seq<char>, c: char)
    requires
        lacks(sep, c),
        forall|i: int| 0 <= i < parts.len() ==> lacks(#[trigger] parts[i], c),
    ensures
        lacks(join(parts, sep), c),
    decreases parts.len(),
{
    if parts.len() > 1 {
        lemma_join_lacks(parts.drop_last(), sep, c);
        let j = join(parts.drop_last(), sep);
        assert(lacks(parts.last(), c));
        assert forall|i: int| 0 <= i < (j + sep + parts.last()).len() implies (j + sep
            + parts.last())[i] != c by {
            if i < j.len() {
            } else if i < j.len() + sep.len() {
                assert((j + sep + parts.last())[i] == sep[i - j.len()]);
            } else {
                assert((j + sep + parts.last())[i] == parts.last()[i - j.len() - sep.len()]);
            }
        }
    } else if parts.len() == 1 {
        assert(lacks(parts[0], c));
    }
}

/// Splitting pieces joined by a separator that none of them holds gives
/// the pieces back.
pub proof fn lemma_split_join(parts: Seq<Seq<char>>, sep: char)
    requires
        parts.len() > 0,
        forall|i: int| 0 <= i < parts.len() ==> lacks(#[trigger] parts[i], sep),
    ensures
        split(join(parts, seq![sep]), sep) == parts,
    decreases parts.len(),
{
    if parts.len() == 1 {
        assert(lacks(parts[0], sep));
        lemma_split_single(parts[0], sep);
        assert(seq![parts[0]] =~= parts);
    } else {
        let init = parts.drop_last();
        assert forall|i: int| 0 <= i < init.len() implies lacks(#[trigger] init[i], sep) by {
            assert(init[i] == parts[i]);
        }
        lemma_split_join(init, sep);
        assert(lacks(parts.last(), sep));
        lemma_split_single(parts.last(), sep);
        lemma_split_concat(join(init, seq![sep]), parts.last(), sep);
        assert(init + seq![parts.last()] =~= parts);
    }
}

proof fn lemma_position_from_concat(a: Seq<char>, c: char, b: Seq<char>, i: int)
    requires
        lacks(a, c),
        0 <= i <= a.len(),
    ensures
        position_from(a + seq![c] + b, c, i) == Some(a.len() as int),
    decreases a.len() - i,
{
    let s = a + seq![c] + b;
    if i < a.len() {
        assert(s[i] == a[i]);
        lemma_position_from_concat(a, c, b, i + 1);
    } else {
        assert(s[i] == c);
    }
}

/// The first `c` of `a + c + b`, where `a` has none, follows `a`.
pub proof fn lemma_split_once_concat(a: Seq<char>, c: char, b: Seq<char>)
    requires
        lacks(a, c),
    ensures
        split_once(a + seq![c] + b, c) == Some((a, b)),
{
    lemma_position_from_concat(a, c, b, 0);
    let s = a + seq![c] + b;
    assert(s.take(a.len() as int) =~= a);
    assert(s.skip(a.len() + 1int) =~= b);
}

/// A character that does not occur has no position.
pub proof fn lemma_position_none(a: Seq<char>, c: char, i: int)
    requires
        lacks(a, c),
        0 <= i,
    ensures
        position_from(a, c, i) is None,
    decreases a.len() - i,
{
    if i < a.len() {
        lemma_position_none(a, c, i + 1);
    }
}

/// The characters of an optional string slice.
pub open spec fn opt_chars(o: Option<&str>) -> Option<Seq<char>> {
    match o {
        Some(s) => Some(s@),
        None => None,
    }
}

/// The views of a sequence of character vectors.
pub open spec fn views(v: Seq<Vec<char>>) -> Seq<Seq<char>> {
    v.map_values(|p: Vec<char>| p@)
}

// ---------------------------------------------------------------------------
// Conversions
// ---------------------------------------------------------------------------

/// The characters of a string slice, in order.
pub fn to_chars(s: &str) -> (v: Vec<char>)
    ensures
        v@ == s@,
{
    let mut v: Vec<char> = Vec::new();
    for c in it: s.chars()
        invariant
            v@ == it.seq().take(it.index()),
    {
        v.push(c);
    }
    v
}

/// A `String` holding the characters of `v`, in order.
///
/// Trusted: the body collects `v.iter()` into a `String` through std's
/// `FromIterator<&char> for String`, which pushes each character in turn;
/// the contract claims that the result's characters are exactly `v`'s.
#[verifier::external_body]
pub(crate) fn string_from_chars(v: &Vec<char>) -> (s: String)
    ensures
        s@ == v@,
{
    v.iter().collect()
}

/// A copy of `s`.
pub fn copy_chars(s: &Vec<char>) -> (r: Vec<char>)
    ensures
        r@ == s@,
{
    let mut r: Vec<char> = Vec::new();
    let mut i: usize = 0;
    while i < s.len()
        invariant
            0 <= i <= s.len(),
            r@ =~= s@.take(i as int),
        decreases s.len() - i,
    {
        r.push(s[i]);
        i += 1;
    }
    r
}

/// Copies of the words `from..to` of `ws`.
pub fn sub_words(ws: &Vec<Vec<char>>, from: usize, to: usize) -> (r: Vec<Vec<char>>)
    requires
        from <= to <= ws.len(),
    ensures
        views(r@) == views(ws@).subrange(from as int, to as int),
{
    let mut r: Vec<Vec<char>> = Vec::new();
    let mut i: usize = from;
    while i < to
        invariant
            from <= i <= to <= ws.len(),
            views(r@) =~= views(ws@).subrange(from as int, i as int),
        decreases to - i,
    {
        let w = copy_chars(&ws[i]);
        let ghost prev = views(r@);
        r.push(w);
        assert(views(r@) =~= prev.push(ws@[i as int]@));
        i += 1;
    }
    r
}

// ---------------------------------------------------------------------------
// Splitting
// ---------------------------------------------------------------------------

/// The pieces of `s` between occurrences of `sep`.
pub fn split_chars(s: &Vec<char>, sep: char) -> (res: Vec<Vec<char>>)
    ensures
        views(res@) == split(s@, sep),
{
    let mut done: Vec<Vec<char>> = Vec::new();
    let mut cur: Vec<char> = Vec::new();
    let mut i: usize = 0;
    assert(s@.take(0) =~= Seq::<char>::empty());
    assert(views(done@).push(cur@) =~= split(s@.take(0), sep));
    while i < s.len()
        invariant
            0 <= i <= s.len(),
            split(s@.take(i as int), sep) == views(done@).push(cur@),
        decreases s.len() - i,
    {
        let c = s[i];
        assert(s@.take(i + 1).drop_last() =~= s@.take(i as int));
        let ghost before = views(done@);
        if c == sep {
            done.push(cur);
            cur = Vec::new();
            assert(views(done@) =~= before.push(views(done@).last()));
        } else {
            cur.push(c);
            assert(views(done@) =~= before);
        }
        i += 1;
        assert(split(s@.take(i as int), sep) =~= views(done@).push(cur@));
    }
    assert(s@.take(s.len() as int) =~= s@);
    let ghost before = views(done@);
    done.push(cur);
    assert(views(done@) =~= before.push(views(done@).last()));
    done
}

/// `s.lines()`.
pub fn lines_of(s: &Vec<char>) -> (res: Vec<Vec<char>>)
    ensures
        views(res@) == lines(s@),
{
    let mut pieces = split_chars(s, '\n');
    let ghost all = views(pieces@);
    proof {
        lemma_split_nonempty(s@, '\n');
    }
    let last = pieces.pop().unwrap();
    let ghost ended = views(pieces@);
    assert(ended =~= all.drop_last());
    assert(last@ == all.last());
    let mut res: Vec<Vec<char>> = Vec::new();
    let mut i: usize = 0;
    while i < pieces.len()
        invariant
            0 <= i <= pieces.len(),
            ended == views(pieces@),
            views(res@) =~= ended.take(i as int).map_values(|l: Seq<char>| strip_cr(l)),
        decreases pieces.len() - i,
    {
        let p = &pieces[i];
        let n = p.len();
        let mut l: Vec<char> = Vec::new();
        let stop = if n > 0 && p[n - 1] == '\r' {
            n - 1
        } else {
            n
        };
        let mut j: usize = 0;
        while j < stop
            invariant
                0 <= j <= stop <= n,
                n == p@.len(),
                stop == strip_cr(p@).len(),
                l@ =~= p@.take(j as int),
            decreases stop - j,
        {
            l.push(p[j]);
            j += 1;
        }
        assert(l@ =~= strip_cr(p@));
        assert(ended[i as int] == p@);
        let ghost prev = views(res@);
        res.push(l);
        assert(views(res@) =~= prev.push(strip_cr(ended[i as int])));
        assert(ended.take(i + 1).map_values(|l: Seq<char>| strip_cr(l)) =~= ended.take(
            i as int,
        ).map_values(|l: Seq<char>| strip_cr(l)).push(strip_cr(ended[i as int])));
        i += 1;
    }
    assert(ended.take(pieces.len() as int) =~= ended);
    if last.len() > 0 {
        let ghost prev = views(res@);
        res.push(last);
        assert(views(res@) =~= prev.push(all.last()));
    }
    res
}

// ---------------------------------------------------------------------------
// Comparing and searching
// ---------------------------------------------------------------------------

/// `a == b`.
pub fn chars_eq(a: &Vec<char>, b: &Vec<char>) -> (eq: bool)
    ensures
        eq == (a@ == b@),
{
    if a.len() != b.len() {
        return false;
    }
    let mut i: usize = 0;
    while i < a.len()
        invariant
            0 <= i <= a.len(),
            a.len() == b.len(),
            forall|j: int| 0 <= j < i ==> a@[j] == b@[j],
        decreases a.len() - i,
    {
        if a[i] != b[i] {
            return false;
        }
        i += 1;
    }
    assert(a@ =~= b@);
    true
}

/// `a == lit`.
pub fn chars_eq_str(a: &Vec<char>, lit: &str) -> (eq: bool)
    ensures
        eq == (a@ == lit@),
{
    let b = to_chars(lit);
    chars_eq(a, &b)
}

/// Whether `pat` occurs in `s` at index `i`.
pub fn matches_at_exec(s: &Vec<char>, i: usize, pat: &Vec<char>) -> (m: bool)
    ensures
        m == matches_at(s@, i as int, pat@),
{
    if i > s.len() || pat.len() > s.len() - i {
        return false;
    }
    let mut j: usize = 0;
    while j < pat.len()
        invariant
            0 <= j <= pat.len(),
            i + pat.len() <= s.len(),
            forall|k: int| 0 <= k < j ==> s@[i + k] == pat@[k],
        decreases pat.len() - j,
    {
        if s[i + j] != pat[j] {
            assert(s@.subrange(i as int, i + pat@.len())[j as int] != pat@[j as int]);
            return false;
        }
        j += 1;
    }
    assert(s@.subrange(i as int, i + pat@.len()) =~= pat@);
    true
}

/// `s.contains(pat)`.
pub fn contains_exec(s: &Vec<char>, pat: &Vec<char>) -> (c: bool)
    ensures
        c == contains(s@, pat@),
{
    if pat.len() > s.len() {
        assert(forall|i: int| !#[trigger] matches_at(s@, i, pat@));
        return false;
    }
    let last = s.len() - pat.len();
    let mut i: usize = 0;
    loop
        invariant
            0 <= i <= last,
            last + pat.len() == s.len(),
            forall|j: int| 0 <= j < i ==> !#[trigger] matches_at(s@, j, pat@),
        decreases last - i,
    {
        if matches_at_exec(s, i, pat) {
            return true;
        }
        if i == last {
            assert(forall|j: int| !#[trigger] matches_at(s@, j, pat@));
            return false;
        }
        i += 1;
    }
}

/// `s.contains(lit)`.
pub fn contains_str(s: &Vec<char>, lit: &str) -> (c: bool)
    ensures
        c == contains(s@, lit@),
{
    let pat = to_chars(lit);
    contains_exec(s, &pat)
}

/// The first index where `x` stands in `s`.
pub fn position_of_char(s: &Vec<char>, x: char) -> (p: Option<usize>)
    ensures
        p matches Some(k) ==> k < s.len() && s@[k as int] == x && position(s@, x) == Some(
            k as int,
        ),
        p is None ==> position(s@, x) is None,
{
    let mut i: usize = 0;
    while i < s.len()
        invariant
            0 <= i <= s.len(),
            position(s@, x) == position_from(s@, x, i as int),
        decreases s.len() - i,
    {
        if s[i] == x {
            return Some(i);
        }
        i += 1;
    }
    None
}

/// The first index where the word `w` stands in `ws`.
pub fn position_of_word(ws: &Vec<Vec<char>>, w: &Vec<char>) -> (p: Option<usize>)
    ensures
        p matches Some(k) ==> k < ws.len() && ws@[k as int]@ == w@ && position(views(ws@), w@)
            == Some(k as int),
        p is None ==> position(views(ws@), w@) is None,
{
    let mut i: usize = 0;
    while i < ws.len()
        invariant
            0 <= i <= ws.len(),
            position(views(ws@), w@) == position_from(views(ws@), w@, i as int),
        decreases ws.len() - i,
    {
        if chars_eq(&ws[i], w) {
            return Some(i);
        }
        i += 1;
    }
    None
}

// ---------------------------------------------------------------------------
// Trimming
// ---------------------------------------------------------------------------

/// Whether `strip` removes `c`.
pub fn strips_exec(strip: &Strip, c: char) -> (r: bool)
    ensures
        r == strips(*strip, c),
{
    match strip {
        Strip::Whitespace => {
            ('\u{9}' <= c && c <= '\u{d}') || c == ' ' || c == '\u{85}' || c == '\u{a0}' || c
                == '\u{1680}' || ('\u{2000}' <= c && c <= '\u{200a}') || c == '\u{2028}' || c
                == '\u{2029}' || c == '\u{202f}' || c == '\u{205f}' || c == '\u{3000}'
        },
        Strip::Char(x) => c == *x,
    }
}

/// `s` without the leading and trailing characters that `strip` removes.
pub fn trim_exec(s: &Vec<char>, strip: &Strip) -> (t: Vec<char>)
    ensures
        t@ == trim_by(s@, *strip),
{
    let n = s.len();
    let mut a: usize = 0;
    assert(s@.subrange(0, n as int) =~= s@);
    while a < n && strips_exec(strip, s[a])
        invariant
            0 <= a <= n,
            n == s@.len(),
            trim_start_by(s@, *strip) == trim_start_by(s@.subrange(a as int, n as int), *strip),
        decreases n - a,
    {
        assert(s@.subrange(a as int, n as int).drop_first() =~= s@.subrange(a + 1, n as int));
        a += 1;
    }
    let mut b: usize = n;
    assert(trim_start_by(s@, *strip) == s@.subrange(a as int, n as int));
    while b > a && strips_exec(strip, s[b - 1])
        invariant
            0 <= a <= b <= n,
            n == s@.len(),
            trim_by(s@, *strip) == trim_end_by(s@.subrange(a as int, b as int), *strip),
        decreases b,
    {
        assert(s@.subrange(a as int, b as int).drop_last() =~= s@.subrange(a as int, b - 1));
        b -= 1;
    }
    let mut t: Vec<char> = Vec::new();
    let mut i: usize = a;
    while i < b
        invariant
            a <= i <= b <= n,
            n == s@.len(),
            t@ =~= s@.subrange(a as int, i as int),
        decreases b - i,
    {
        t.push(s[i]);
        i += 1;
    }
    t
}

/// `s.trim()`.
pub fn trim_ws(s: &Vec<char>) -> (t: Vec<char>)
    ensures
        t@ == trim(s@),
{
    trim_exec(s, &Strip::Whitespace)
}

// ---------------------------------------------------------------------------
// Words, replacement, joining
// ---------------------------------------------------------------------------

/// `s.split_whitespace()`.
pub fn words_exec(s: &Vec<char>) -> (res: Vec<Vec<char>>)
    ensures
        views(res@) == words(s@),
{
    let mut done: Vec<Vec<char>> = Vec::new();
    let mut cur: Vec<char> = Vec::new();
    let mut i: usize = 0;
    assert(s@.take(0) =~= Seq::<char>::empty());
    assert(views(done@) =~= Seq::<Seq<char>>::empty());
    while i < s.len()
        invariant
            0 <= i <= s.len(),
            words_state(s@.take(i as int)) == (views(done@), cur@),
        decreases s.len() - i,
    {
        let c = s[i];
        assert(s@.take(i + 1).drop_last() =~= s@.take(i as int));
        let ghost before = views(done@);
        if strips_exec(&Strip::Whitespace, c) {
            if cur.len() > 0 {
                done.push(cur);
                cur = Vec::new();
                assert(views(done@) =~= before.push(views(done@).last()));
            }
        } else {
            cur.push(c);
        }
        i += 1;
        assert(words_state(s@.take(i as int)) =~= (views(done@), cur@));
    }
    assert(s@.take(s.len() as int) =~= s@);
    if cur.len() > 0 {
        let ghost before = views(done@);
        done.push(cur);
        assert(views(done@) =~= before.push(views(done@).last()));
    }
    done
}

/// `s.replace(pat, rep)` for a non-empty `pat`.
pub fn replace_exec(s: &Vec<char>, pat: &Vec<char>, rep: &Vec<char>) -> (r: Vec<char>)
    requires
        pat.len() > 0,
    ensures
        r@ == replace(s@, pat@, rep@),
{
    let mut out: Vec<char> = Vec::new();
    let mut i: usize = 0;
    assert(s@.skip(0) =~= s@);
    while i < s.len()
        invariant
            0 <= i <= s.len(),
            pat@.len() > 0,
            replace(s@, pat@, rep@) == out@ + replace(s@.skip(i as int), pat@, rep@),
        decreases s.len() - i,
    {
        let ghost t = s@.skip(i as int);
        if matches_at_exec(s, i, pat) {
            assert(t.subrange(0, pat@.len() as int) =~= s@.subrange(i as int, i + pat@.len()));
            assert(t.skip(pat@.len() as int) =~= s@.skip(i + pat@.len()));
            let ghost prev = out@;
            let mut k: usize = 0;
            while k < rep.len()
                invariant
                    0 <= k <= rep.len(),
                    out@ =~= prev + rep@.take(k as int),
                decreases rep.len() - k,
            {
                out.push(rep[k]);
                k += 1;
            }
            assert(rep@.take(rep@.len() as int) =~= rep@);
            i += pat.len();
            assert(replace(s@, pat@, rep@) =~= out@ + replace(s@.skip(i as int), pat@, rep@));
        } else {
            assert(!matches_at(t, 0, pat@)) by {
                if matches_at(t, 0, pat@) {
                    assert(t.subrange(0, pat@.len() as int) =~= s@.subrange(
                        i as int,
                        i + pat@.len(),
                    ));
                }
            }
            assert(t.drop_first() =~= s@.skip(i + 1));
            let ghost prev = out@;
            out.push(s[i]);
            i += 1;
            assert(replace(s@, pat@, rep@) =~= out@ + replace(s@.skip(i as int), pat@, rep@));
        }
    }
    assert(s@.skip(s.len() as int) =~= Seq::<char>::empty());
    assert(out@ + Seq::<char>::empty() =~= out@);
    out
}

/// `parts.join(sep)`.
pub fn join_exec(parts: &Vec<Vec<char>>, sep: &Vec<char>) -> (r: Vec<char>)
    ensures
        r@ == join(views(parts@), sep@),
{
    let mut out: Vec<char> = Vec::new();
    let mut i: usize = 0;
    let ghost ps = views(parts@);
    while i < parts.len()
        invariant
            0 <= i <= parts.len(),
            ps == views(parts@),
            out@ == join(ps.take(i as int), sep@),
        decreases parts.len() - i,
    {
        let ghost prev = out@;
        if i > 0 {
            let mut k: usize = 0;
            while k < sep.len()
                invariant
                    0 <= k <= sep.len(),
                    out@ =~= prev + sep@.take(k as int),
                decreases sep.len() - k,
            {
                out.push(sep[k]);
                k += 1;
            }
            assert(sep@.take(sep@.len() as int) =~= sep@);
        }
        let ghost mid = out@;
        let p = &parts[i];
        let mut k: usize = 0;
        while k < p.len()
            invariant
                0 <= k <= p.len(),
                out@ =~= mid + p@.take(k as int),
            decreases p.len() - k,
        {
            out.push(p[k]);
            k += 1;
        }
        assert(p@.take(p@.len() as int) =~= p@);
        assert(ps[i as int] == p@);
        assert(ps.take(i + 1).drop_last() =~= ps.take(i as int));
        i += 1;
        if i == 1 {
            assert(out@ =~= join(ps.take(i as int), sep@));
        } else {
            assert(out@ =~= join(ps.take(i as int), sep@));
        }
    }
    assert(ps.take(parts.len() as int) =~= ps);
    out
}

} // verus!
