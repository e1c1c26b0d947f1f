//! Text as sequences of characters: trimming, splitting, joining, ordering.

use vstd::prelude::*;
use vstd::std_specs::iter::IteratorSpec;

verus! {

/// `String::push` of std: the string grows by the one character, at its end.
pub assume_specification[ String::push ](s: &mut String, c: char)
    ensures
        final(s)@ == old(s)@.push(c),
;

/// Which characters a trim takes off: white space, or one given character.
#[derive(Clone, Copy, PartialEq, Eq, Structural)]
pub enum Strip {
    WhiteSpace,
    Only(char),
}

/// The characters with the Unicode property `White_Space`.
pub open spec fn is_white_space(c: char) -> bool {
    ||| '\u{9}' <= c <= '\u{d}'
    ||| c == ' '
    ||| c == '\u{85}'
    ||| c == '\u{a0}'
    ||| c == '\u{1680}'
    ||| '\u{2000}' <= c <= '\u{200a}'
    ||| c == '\u{2028}'
    ||| c == '\u{2029}'
    ||| c == '\u{202f}'
    ||| c == '\u{205f}'
    ||| c == '\u{3000}'
}

pub open spec fn stripped_char(what: Strip, c: char) -> bool {
    match what {
        Strip::WhiteSpace => is_white_space(c),
        Strip::Only(d) => c == d,
    }
}

/// `s` without the leading characters that `what` names.
pub open spec fn trim_start(s: Seq<char>, what: Strip) -> Seq<char>
    decreases s.len(),
{
    if s.len() > 0 && stripped_char(what, s[0]) {
        trim_start(s.skip(1), what)
    } else {
        s
    }
}

/// `s` without the trailing characters that `what` names.
pub open spec fn trim_end(s: Seq<char>, what: Strip) -> Seq<char>
    decreases s.len(),
{
    if s.len() > 0 && stripped_char(what, s.last()) {
        trim_end(s.drop_last(), what)
    } else {
        s
    }
}

/// `s` without the characters that `what` names at either end.
pub open spec fn trim(s: Seq<char>, what: Strip) -> Seq<char> {
    trim_end(trim_start(s, what), what)
}

/// `s` without white space at either end.
pub open spec fn trim_space(s: Seq<char>) -> Seq<char> {
    trim(s, Strip::WhiteSpace)
}

pub open spec fn lower_char(c: char) -> char {
    if 'A' <= c <= 'Z' {
        (c as u32 + 32) as char
    } else {
        c
    }
}

/// `s` with the ASCII letters in lower case.
pub open spec fn lower(s: Seq<char>) -> Seq<char> {
    s.map_values(|c: char| lower_char(c))
}

/// Where `c` first occurs in `s`; the length of `s` where it does not.
pub open spec fn find(s: Seq<char>, c: char) -> int
    decreases s.len(),
{
    if s.len() == 0 || s[0] == c {
        0
    } else {
        1 + find(s.skip(1), c)
    }
}

/// What stands before and after the first `c`.
pub open spec fn split_once(s: Seq<char>, c: char) -> Option<(Seq<char>, Seq<char>)> {
    if s.contains(c) {
        Some((s.take(find(s, c)), s.skip(find(s, c) + 1)))
    } else {
        None
    }
}

/// The pieces of `s` between the occurrences of `c`: always one more than those.
pub open spec fn split(s: Seq<char>, c: char) -> Seq<Seq<char>>
    decreases s.len(),
    via split_decreases
{
    if s.contains(c) {
        seq![s.take(find(s, c))] + split(s.skip(find(s, c) + 1), c)
    } else {
        seq![s]
    }
}

#[via_fn]
proof fn split_decreases(s: Seq<char>, c: char) {
    if s.contains(c) {
        lemma_find(s, c);
    }
}

/// The pieces with `sep` between neighbours.
pub open spec fn join(pieces: Seq<Seq<char>>, sep: Seq<char>) -> Seq<char>
    decreases pieces.len(),
{
    if pieces.len() == 0 {
        Seq::empty()
    } else if pieces.len() == 1 {
        pieces[0]
    } else {
        pieces[0] + sep + join(pieces.skip(1), sep)
    }
}

/// The order of strings: by the first character in which they differ, a proper
/// prefix first.
pub open spec fn text_less(a: Seq<char>, b: Seq<char>) -> bool
    decreases a.len(),
{
    if b.len() == 0 {
        false
    } else if a.len() == 0 {
        true
    } else if a[0] == b[0] {
        text_less(a.skip(1), b.skip(1))
    } else {
        a[0] < b[0]
    }
}

pub proof fn lemma_find(s: Seq<char>, c: char)
    ensures
        0 <= find(s, c) <= s.len(),
        forall|j: int| 0 <= j < find(s, c) ==> s[j] != c,
        find(s, c) < s.len() ==> s[find(s, c)] == c,
        s.contains(c) <==> find(s, c) < s.len(),
    decreases s.len(),
{
    if s.len() == 0 || s[0] == c {
        if s.len() > 0 {
            assert(s.contains(c)) by { assert(s[0] == c); }
        }
    } else {
        let t = s.skip(1);
        lemma_find(t, c);
        assert forall|j: int| 0 <= j < find(s, c) implies s[j] != c by {
            if j > 0 {
                assert(t[j - 1] == s[j]);
            }
        }
        if s.contains(c) {
            let k = choose|k: int| 0 <= k < s.len() && s[k] == c;
            assert(t[k - 1] == c);
        }
        if find(s, c) < s.len() {
            assert(s[find(s, c)] == t[find(t, c)]);
        }
    }
}

/// `find` is the only position with what `lemma_find` says of it.
pub proof fn lemma_find_is(s: Seq<char>, c: char, k: int)
    requires
        0 <= k <= s.len(),
        forall|j: int| 0 <= j < k ==> s[j] != c,
        k < s.len() ==> s[k] == c,
    ensures
        find(s, c) == k,
        s.contains(c) <==> k < s.len(),
{
    lemma_find(s, c);
}

pub proof fn lemma_trim_end_len(s: Seq<char>, what: Strip)
    ensures
        trim_end(s, what).len() <= s.len(),
        trim_end(s, what) == s.take(trim_end(s, what).len() as int),
    decreases s.len(),
{
    if s.len() > 0 && stripped_char(what, s.last()) {
        lemma_trim_end_len(s.drop_last(), what);
        let t = trim_end(s.drop_last(), what);
        assert(s.drop_last().take(t.len() as int) =~= s.take(t.len() as int));
    } else {
        assert(s.take(s.len() as int) =~= s);
    }
}

/// After a trim neither end holds a character that the trim takes off.
pub proof fn lemma_trim_ends(s: Seq<char>, what: Strip)
    ensures
        ({
            let t = trim(s, what);
            t.len() > 0 ==> !stripped_char(what, t[0]) && !stripped_char(what, t.last())
        }),
{
    let m = trim_start(s, what);
    lemma_trim_start_first(s, what);
    lemma_trim_end_last(m, what);
    lemma_trim_end_len(m, what);
}

proof fn lemma_trim_start_first(s: Seq<char>, what: Strip)
    ensures
        trim_start(s, what).len() > 0 ==> !stripped_char(what, trim_start(s, what)[0]),
    decreases s.len(),
{
    if s.len() > 0 && stripped_char(what, s[0]) {
        lemma_trim_start_first(s.skip(1), what);
    }
}

proof fn lemma_trim_end_last(s: Seq<char>, what: Strip)
    ensures
        trim_end(s, what).len() > 0 ==> !stripped_char(what, trim_end(s, what).last()),
    decreases s.len(),
{
    if s.len() > 0 && stripped_char(what, s.last()) {
        lemma_trim_end_last(s.drop_last(), what);
    }
}

/// A text whose ends a trim leaves alone is its own trim.
pub proof fn lemma_trim_fixed(s: Seq<char>, what: Strip)
    requires
        s.len() > 0 ==> !stripped_char(what, s[0]) && !stripped_char(what, s.last()),
    ensures
        trim(s, what) == s,
{
}

/// Trimming twice is trimming once.
pub proof fn lemma_trim_idempotent(s: Seq<char>, what: Strip)
    ensures
        trim(trim(s, what), what) == trim(s, what),
{
    lemma_trim_ends(s, what);
    lemma_trim_fixed(trim(s, what), what);
}

/// Lowering twice is lowering once.
pub proof fn lemma_lower_idempotent(s: Seq<char>)
    ensures
        lower(lower(s)) == lower(s),
{
    assert(lower(lower(s)) =~= lower(s));
}

/// Lower-casing leaves white space where it was.
pub proof fn lemma_trim_lower(s: Seq<char>)
    ensures
        trim_space(lower(s)) == lower(trim_space(s)),
{
    lemma_trim_start_lower(s);
    lemma_trim_end_lower(trim_start(s, Strip::WhiteSpace));
}

proof fn lemma_trim_start_lower(s: Seq<char>)
    ensures
        trim_start(lower(s), Strip::WhiteSpace) == lower(trim_start(s, Strip::WhiteSpace)),
    decreases s.len(),
{
    if s.len() > 0 {
        assert(lower(s)[0] == lower_char(s[0]));
        assert(is_white_space(lower_char(s[0])) == is_white_space(s[0]));
        assert(lower(s).skip(1) =~= lower(s.skip(1)));
        lemma_trim_start_lower(s.skip(1));
    }
}

proof fn lemma_trim_end_lower(s: Seq<char>)
    ensures
        trim_end(lower(s), Strip::WhiteSpace) == lower(trim_end(s, Strip::WhiteSpace)),
    decreases s.len(),
{
    if s.len() > 0 {
        assert(lower(s).last() == lower_char(s.last()));
        assert(is_white_space(lower_char(s.last())) == is_white_space(s.last()));
        assert(lower(s).drop_last() =~= lower(s.drop_last()));
        lemma_trim_end_lower(s.drop_last());
    }
}

/// One more piece at the end of a join.
pub proof fn lemma_join_push(pieces: Seq<Seq<char>>, piece: Seq<char>, sep: Seq<char>)
    ensures
        join(pieces.push(piece), sep) == if pieces.len() == 0 {
            piece
        } else {
            join(pieces, sep) + sep + piece
        },
    decreases pieces.len(),
{
    let all = pieces.push(piece);
    if pieces.len() == 0 {
    } else if pieces.len() == 1 {
        assert(all.skip(1) =~= seq![piece]);
        assert(join(all.skip(1), sep) == piece);
    } else {
        lemma_join_push(pieces.skip(1), piece, sep);
        assert(all.skip(1) =~= pieces.skip(1).push(piece));
        assert(join(all, sep) =~= join(pieces, sep) + sep + piece);
    }
}

/// Splitting a join gives the pieces back, where none of them holds the separator.
pub proof fn lemma_split_join(pieces: Seq<Seq<char>>, c: char)
    requires
        pieces.len() > 0,
        forall|i: int| 0 <= i < pieces.len() ==> !(#[trigger] pieces[i]).contains(c),
    ensures
        split(join(pieces, seq![c]), c) == pieces,
    decreases pieces.len(),
{
    let s = join(pieces, seq![c]);
    if pieces.len() == 1 {
        assert(!pieces[0].contains(c));
        assert(split(s, c) =~= pieces);
    } else {
        let head = pieces[0];
        let tail = pieces.skip(1);
        let rest = join(tail, seq![c]);
        assert(!pieces[0].contains(c));
        assert(s == head + seq![c] + rest);
        assert(s[head.len() as int] == c);
        assert forall|j: int| 0 <= j < head.len() implies s[j] != c by {
            assert(s[j] == head[j]);
        }
        lemma_find_is(s, c, head.len() as int);
        assert(s.take(head.len() as int) =~= head);
        assert(s.skip(head.len() as int + 1) =~= rest);
        assert forall|i: int| 0 <= i < tail.len() implies !(#[trigger] tail[i]).contains(c) by {
            assert(tail[i] == pieces[i + 1]);
        }
        lemma_split_join(tail, c);
        assert(split(s, c) =~= pieces);
    }
}

pub proof fn lemma_text_less_irreflexive(a: Seq<char>)
    ensures
        !text_less(a, a),
    decreases a.len(),
{
    if a.len() > 0 {
        lemma_text_less_irreflexive(a.skip(1));
    }
}

pub proof fn lemma_text_less_transitive(a: Seq<char>, b: Seq<char>, c: Seq<char>)
    requires
        text_less(a, b),
        text_less(b, c),
    ensures
        text_less(a, c),
    decreases a.len(),
{
    if a.len() > 0 && b.len() > 0 && c.len() > 0 && a[0] == b[0] && b[0] == c[0] {
        lemma_text_less_transitive(a.skip(1), b.skip(1), c.skip(1));
    }
}

/// Of two different strings one comes first.
pub proof fn lemma_text_less_total(a: Seq<char>, b: Seq<char>)
    ensures
        text_less(a, b) || text_less(b, a) || a == b,
    decreases a.len(),
{
    if a.len() > 0 && b.len() > 0 && a[0] == b[0] {
        lemma_text_less_total(a.skip(1), b.skip(1));
        if a.skip(1) == b.skip(1) {
            assert forall|i: int| 0 <= i < a.len() implies a[i] == b[i] by {
                if i > 0 {
                    assert(a.skip(1)[i - 1] == b.skip(1)[i - 1]);
                }
            }
            assert(a.skip(1).len() == b.skip(1).len());
            assert(a =~= b);
        }
    } else if a.len() == 0 && b.len() == 0 {
        assert(a =~= b);
    }
}

/// The characters of a string, in order.
pub fn chars_of(s: &str) -> (res: Vec<char>)
    ensures
        res@ == s@,
{
    let mut it = s.chars();
    let mut res: Vec<char> = Vec::new();
    loop
        invariant_except_break
            res@ + it.remaining() == s@,
            it.decrease() is Some,
            it.obeys_prophetic_iter_laws(),
        ensures
            res@ == s@,
        decreases it.decrease()->0,
    {
        let ghost before = it.remaining();
        match it.next() {
            Some(c) => {
                res.push(c);
                assert(before =~= seq![c] + it.remaining());
            },
            None => {
                break;
            },
        }
    }
    res
}

/// The string made of the given characters.
pub fn string_of(chars: &[char]) -> (res: String)
    ensures
        res@ == chars@,
{
    let mut res = String::new();
    let mut i: usize = 0;
    while i < chars.len()
        invariant
            i <= chars@.len(),
            res@ == chars@.take(i as int),
        decreases chars@.len() - i,
    {
        res.push(chars[i]);
        i += 1;
        assert(chars@.take(i as int) =~= chars@.take(i - 1).push(chars@[i - 1]));
    }
    assert(chars@.take(i as int) =~= chars@);
    res
}

fn strips(what: Strip, c: char) -> (res: bool)
    ensures
        res == stripped_char(what, c),
{
    match what {
        Strip::WhiteSpace => {
            ('\u{9}' <= c && c <= '\u{d}') || c == ' ' || c == '\u{85}' || c == '\u{a0}' || c
                == '\u{1680}' || ('\u{2000}' <= c && c <= '\u{200a}') || c == '\u{2028}' || c
                == '\u{2029}' || c == '\u{202f}' || c == '\u{205f}' || c == '\u{3000}'
        },
        Strip::Only(d) => c == d,
    }
}

/// `s` without the characters that `what` names at either end.
pub fn trimmed(s: &[char], what: Strip) -> (res: Vec<char>)
    ensures
        res@ == trim(s@, what),
{
    let mut start: usize = 0;
    assert(s@.skip(0) =~= s@);
    while start < s.len() && strips(what, s[start])
        invariant
            start <= s@.len(),
            trim_start(s@.skip(start as int), what) == trim_start(s@, what),
        decreases s@.len() - start,
    {
        assert(s@.skip(start as int).skip(1) =~= s@.skip(start + 1));
        start += 1;
    }
    let ghost middle = s@.skip(start as int);
    let mut end: usize = s.len();
    assert(middle.take(end - start) =~= middle);
    while end > start && strips(what, s[end - 1])
        invariant
            start <= end <= s@.len(),
            middle == s@.skip(start as int),
            trim_end(middle.take(end - start), what) == trim_end(middle, what),
        decreases end,
    {
        assert(middle.take(end - start).drop_last() =~= middle.take(end - 1 - start));
        assert(middle.take(end - start).last() == s@[end - 1]);
        end -= 1;
    }
    let res = piece(s, start, end);
    assert(res@ =~= middle.take(end - start));
    res
}

/// The characters from `start` up to `end`.
pub fn piece(s: &[char], start: usize, end: usize) -> (res: Vec<char>)
    requires
        start <= end <= s@.len(),
    ensures
        res@ == s@.subrange(start as int, end as int),
{
    let mut res: Vec<char> = Vec::new();
    let mut i: usize = start;
    while i < end
        invariant
            start <= i <= end <= s@.len(),
            res@ == s@.subrange(start as int, i as int),
        decreases end - i,
    {
        res.push(s[i]);
        i += 1;
        assert(s@.subrange(start as int, i as int) =~= s@.subrange(start as int, i - 1).push(
            s@[i - 1],
        ));
    }
    res
}

/// `s` with the ASCII letters in lower case.
pub fn lowered(s: &[char]) -> (res: Vec<char>)
    ensures
        res@ == lower(s@),
{
    let mut res: Vec<char> = Vec::new();
    let mut i: usize = 0;
    while i < s.len()
        invariant
            i <= s@.len(),
            res@ == lower(s@).take(i as int),
        decreases s@.len() - i,
    {
        res.push(lower_of(s[i]));
        i += 1;
        assert(lower(s@).take(i as int) =~= lower(s@).take(i - 1).push(lower(s@)[i - 1]));
    }
    assert(lower(s@).take(i as int) =~= lower(s@));
    res
}

fn lower_of(c: char) -> (res: char)
    ensures
        res == lower_char(c),
{
    if 'A' <= c && c <= 'Z' {
        ((c as u8) + 32) as char
    } else {
        c
    }
}

/// Where `c` first occurs in `s`; the length of `s` where it does not.
pub fn position(s: &[char], c: char) -> (res: usize)
    ensures
        res == find(s@, c),
        res <= s@.len(),
        res < s@.len() <==> s@.contains(c),
{
    let mut i: usize = 0;
    while i < s.len() && s[i] != c
        invariant
            i <= s@.len(),
            forall|j: int| 0 <= j < i ==> s@[j] != c,
        decreases s@.len() - i,
    {
        i += 1;
    }
    proof {
        lemma_find_is(s@, c, i as int);
    }
    i
}

/// What stands before and after the first `c`.
pub fn cut_once(s: &[char], c: char) -> (res: Option<(Vec<char>, Vec<char>)>)
    ensures
        match res {
            Some(p) => split_once(s@, c) == Some((p.0@, p.1@)),
            None => split_once(s@, c) is None,
        },
{
    let at: usize = position(s, c);
    if at < s.len() {
        let before = piece(s, 0, at);
        let after = piece(s, at + 1, s.len());
        assert(before@ =~= s@.take(at as int));
        assert(after@ =~= s@.skip(at + 1));
        Some((before, after))
    } else {
        None
    }
}

/// A list of texts as a sequence of sequences.
pub open spec fn texts(v: Seq<Vec<char>>) -> Seq<Seq<char>> {
    v.map_values(|p: Vec<char>| p@)
}

/// The pieces of `s` between the occurrences of `c`.
pub fn cut(s: &[char], c: char) -> (res: Vec<Vec<char>>)
    ensures
        texts(res@) == split(s@, c),
        res@.len() > 0,
{
    let mut res: Vec<Vec<char>> = Vec::new();
    let mut start: usize = 0;
    let mut i: usize = 0;
    assert(s@.skip(0) =~= s@);
    assert(texts(res@) + split(s@, c) =~= split(s@, c));
    while i < s.len()
        invariant
            start <= i <= s@.len(),
            forall|j: int| start <= j < i ==> s@[j] != c,
            texts(res@) + split(s@.skip(start as int), c) == split(s@, c),
        decreases s@.len() - i,
    {
        if s[i] == c {
            let ghost rest = s@.skip(start as int);
            let ghost done = texts(res@);
            let p = piece(s, start, i);
            proof {
                assert forall|j: int| 0 <= j < i - start implies rest[j] != c by {
                    assert(rest[j] == s@[start + j]);
                }
                assert(rest[i - start] == c);
                lemma_find_is(rest, c, i - start);
                assert(p@ =~= rest.take(i - start));
                assert(rest.skip(i - start + 1) =~= s@.skip(i + 1));
            }
            let ghost old_res = res@;
            res.push(p);
            assert(texts(res@) =~= done.push(p@));
            assert(texts(res@) + split(s@.skip(i + 1), c) =~= done + (seq![p@] + split(
                s@.skip(i + 1),
                c,
            )));
            start = i + 1;
        }
        i += 1;
    }
    let ghost rest = s@.skip(start as int);
    let ghost done = texts(res@);
    let p = piece(s, start, s.len());
    proof {
        assert forall|j: int| 0 <= j < rest.len() implies rest[j] != c by {
            assert(rest[j] == s@[start + j]);
        }
        assert(!rest.contains(c));
        assert(p@ =~= rest);
    }
    res.push(p);
    assert(texts(res@) =~= done + seq![p@]);
    res
}

/// Whether two texts are the same.
pub fn same(a: &[char], b: &[char]) -> (res: bool)
    ensures
        res == (a@ == b@),
{
    if a.len() != b.len() {
        return false;
    }
    let mut i: usize = 0;
    while i < a.len()
        invariant
            i <= a@.len(),
            a@.len() == b@.len(),
            forall|j: int| 0 <= j < i ==> a@[j] == b@[j],
        decreases a@.len() - i,
    {
        if a[i] != b[i] {
            return false;
        }
        i += 1;
    }
    assert(a@ =~= b@);
    true
}

/// Whether two strings are the same.
pub fn same_str(a: &str, b: &str) -> (res: bool)
    ensures
        res == (a@ == b@),
{
    same(&chars_of(a), &chars_of(b))
}

/// Whether `s` begins with `prefix`.
pub fn begins_with(s: &[char], prefix: &[char]) -> (res: bool)
    ensures
        res == prefix@.is_prefix_of(s@),
{
    if prefix.len() > s.len() {
        return false;
    }
    let start = piece(s, 0, prefix.len());
    same(&start, prefix)
}

/// Whether the first string comes before the second.
pub fn comes_before(a: &str, b: &str) -> (res: bool)
    ensures
        res == text_less(a@, b@),
{
    let x = chars_of(a);
    let y = chars_of(b);
    let mut i: usize = 0;
    assert(x@.skip(0) =~= x@ && y@.skip(0) =~= y@);
    while i < x.len() && i < y.len() && x[i] == y[i]
        invariant
            i <= x@.len(),
            i <= y@.len(),
            text_less(x@.skip(i as int), y@.skip(i as int)) == text_less(x@, y@),
        decreases x@.len() - i,
    {
        assert(x@.skip(i as int).skip(1) =~= x@.skip(i + 1));
        assert(y@.skip(i as int).skip(1) =~= y@.skip(i + 1));
        i += 1;
    }
    if i >= y.len() {
        false
    } else if i >= x.len() {
        true
    } else {
        x[i] < y[i]
    }
}

} // verus!
