//! What the operations on text come to, character by character.

use crate::text::{
    find, is_white_space, join, lemma_find, lemma_find_is, lemma_join_push, lower, split, split_once, stripped_char,
    text_less, trim, trim_end, trim_space, trim_start, Strip,
};
use vstd::prelude::*;

verus! {

/// White space, by the numbers of the characters.
pub open spec fn is_blank(c: char) -> bool {
    let n = c as u32;
    9 <= n <= 13 || n == 0x20 || n == 0x85 || n == 0xa0 || n == 0x1680 || 0x2000 <= n <= 0x200a || n
        == 0x2028 || n == 0x2029 || n == 0x202f || n == 0x205f || n == 0x3000
}

/// Whether `core` is what is left of `raw` when every character for which `drop` holds is
/// taken off both ends, and none from between.
pub open spec fn is_core(raw: Seq<char>, core: Seq<char>, drop: spec_fn(char) -> bool) -> bool {
    &&& core.len() > 0 ==> !drop(core[0]) && !drop(core[core.len() - 1])
    &&& exists|before: Seq<char>, after: Seq<char>| #[trigger]
        (before + core + after) == raw && all_dropped(before, drop) && all_dropped(after, drop)
}

pub open spec fn all_dropped(s: Seq<char>, drop: spec_fn(char) -> bool) -> bool {
    forall|i: int| 0 <= i < s.len() ==> drop(#[trigger] s[i])
}

/// Whether `core` is `raw` without the white space round it.
pub open spec fn is_blank_core(raw: Seq<char>, core: Seq<char>) -> bool {
    is_core(raw, core, |c: char| is_blank(c))
}

/// Whether `core` is `raw` without the characters `d` round it.
pub open spec fn is_core_without(raw: Seq<char>, core: Seq<char>, d: char) -> bool {
    is_core(raw, core, |c: char| c == d)
}

/// Whether `low` is `s` with 'a' to 'z' in place of 'A' to 'Z' and every other character as it
/// is.
pub open spec fn is_lowered(s: Seq<char>, low: Seq<char>) -> bool {
    &&& low.len() == s.len()
    &&& forall|i: int|
        0 <= i < s.len() ==> (#[trigger] low[i]) as int == if 65 <= s[i] as int <= 90 {
            s[i] as int + 32
        } else {
            s[i] as int
        }
}

/// There is one way to take characters off both ends.
pub proof fn law_one_core(raw: Seq<char>, a: Seq<char>, b: Seq<char>, drop: spec_fn(char) -> bool)
    requires
        is_core(raw, a, drop),
        is_core(raw, b, drop),
    ensures
        a == b,
{
    let (p, q) = choose|p: Seq<char>, q: Seq<char>| #[trigger]
        (p + a + q) == raw && all_dropped(p, drop) && all_dropped(q, drop);
    let (x, y) = choose|x: Seq<char>, y: Seq<char>| #[trigger]
        (x + b + y) == raw && all_dropped(x, drop) && all_dropped(y, drop);
    assert((p + a + q).len() == p.len() + a.len() + q.len());
    assert((x + b + y).len() == x.len() + b.len() + y.len());
    if a.len() > 0 {
        lemma_core_inside(raw, p, a, q, x, b, y, drop);
    }
    if b.len() > 0 {
        lemma_core_inside(raw, x, b, y, p, a, q, drop);
    }
    if a.len() == 0 || b.len() == 0 {
        assert(a =~= b);
    } else {
        assert(p.len() == x.len() && q.len() == y.len());
        assert forall|i: int| 0 <= i < a.len() implies a[i] == b[i] by {
            assert((p + a + q)[p.len() + i] == a[i]);
            assert((x + b + y)[x.len() + i] == b[i]);
        }
        assert(a =~= b);
    }
}

proof fn lemma_core_inside(
    raw: Seq<char>,
    p: Seq<char>,
    a: Seq<char>,
    q: Seq<char>,
    x: Seq<char>,
    b: Seq<char>,
    y: Seq<char>,
    drop: spec_fn(char) -> bool,
)
    requires
        p + a + q == raw,
        x + b + y == raw,
        a.len() > 0,
        !drop(a[0]),
        !drop(a[a.len() - 1]),
        all_dropped(x, drop),
        all_dropped(y, drop),
    ensures
        x.len() <= p.len(),
        y.len() <= q.len(),
        b.len() > 0,
{
    assert((p + a + q).len() == p.len() + a.len() + q.len());
    assert((x + b + y).len() == x.len() + b.len() + y.len());
    assert(raw[p.len() as int] == a[0]);
    assert(raw[p.len() + a.len() - 1] == a[a.len() - 1]);
    if p.len() < x.len() {
        assert(x[p.len() as int] == raw[p.len() as int]);
    }
    if q.len() < y.len() {
        let i = p.len() + a.len() - 1;
        assert((x + b + y)[i] == y[i - x.len() - b.len()]);
    }
}

proof fn lemma_trim_start_parts(s: Seq<char>, what: Strip)
    ensures
        exists|before: Seq<char>| #[trigger]
            (before + trim_start(s, what)) == s && forall|i: int|
                0 <= i < before.len() ==> stripped_char(what, #[trigger] before[i]),
        trim_start(s, what).len() > 0 ==> !stripped_char(what, trim_start(s, what)[0]),
    decreases s.len(),
{
    if s.len() > 0 && stripped_char(what, s[0]) {
        lemma_trim_start_parts(s.skip(1), what);
        let b = choose|before: Seq<char>| #[trigger]
            (before + trim_start(s.skip(1), what)) == s.skip(1) && forall|i: int|
                0 <= i < before.len() ==> stripped_char(what, #[trigger] before[i]);
        let c = seq![s[0]] + b;
        assert(c + trim_start(s, what) =~= seq![s[0]] + (b + trim_start(s.skip(1), what)));
        assert(seq![s[0]] + s.skip(1) =~= s);
        assert(c + trim_start(s, what) == s);
        assert forall|i: int| 0 <= i < c.len() implies stripped_char(what, #[trigger] c[i]) by {
            if i > 0 {
                assert(c[i] == b[i - 1]);
            }
        }
    } else {
        assert(Seq::<char>::empty() + trim_start(s, what) =~= s);
    }
}

proof fn lemma_trim_end_parts(s: Seq<char>, what: Strip)
    ensures
        exists|after: Seq<char>| #[trigger]
            (trim_end(s, what) + after) == s && forall|i: int|
                0 <= i < after.len() ==> stripped_char(what, #[trigger] after[i]),
        trim_end(s, what).len() > 0 ==> !stripped_char(what, trim_end(s, what).last()),
    decreases s.len(),
{
    if s.len() > 0 && stripped_char(what, s.last()) {
        let t = s.drop_last();
        lemma_trim_end_parts(t, what);
        let b = choose|after: Seq<char>| #[trigger]
            (trim_end(t, what) + after) == t && forall|i: int|
                0 <= i < after.len() ==> stripped_char(what, #[trigger] after[i]);
        let c = b.push(s.last());
        assert(trim_end(s, what) + c =~= (trim_end(t, what) + b).push(s.last()));
        assert(t.push(s.last()) =~= s);
        assert(trim_end(s, what) + c == s);
        assert forall|i: int| 0 <= i < c.len() implies stripped_char(what, #[trigger] c[i]) by {
            if i < b.len() {
                assert(c[i] == b[i]);
            }
        }
    } else {
        assert(trim_end(s, what) + Seq::<char>::empty() =~= s);
    }
}

proof fn lemma_trim_parts(s: Seq<char>, what: Strip, drop: spec_fn(char) -> bool)
    requires
        forall|c: char| #[trigger] stripped_char(what, c) <==> drop(c),
    ensures
        is_core(s, trim(s, what), drop),
{
    let m = trim_start(s, what);
    let t = trim_end(m, what);
    lemma_trim_start_parts(s, what);
    lemma_trim_end_parts(m, what);
    let p = choose|before: Seq<char>| #[trigger]
        (before + m) == s && forall|i: int|
            0 <= i < before.len() ==> stripped_char(what, #[trigger] before[i]);
    let q = choose|after: Seq<char>| #[trigger]
        (t + after) == m && forall|i: int|
            0 <= i < after.len() ==> stripped_char(what, #[trigger] after[i]);
    assert(p + t + q =~= p + (t + q));
    if t.len() > 0 {
        assert(m[0] == t[0]);
    }
    assert(all_dropped(p, drop));
    assert(all_dropped(q, drop));
}

proof fn lemma_blanks(c: char)
    ensures
        is_white_space(c) <==> is_blank(c),
{
}

/// Trimming white space takes it off both ends, all of it, and nothing else.
pub proof fn law_trim_space(s: Seq<char>)
    ensures
        is_blank_core(s, trim_space(s)),
{
    let drop = |c: char| is_blank(c);
    assert forall|c: char| #[trigger] stripped_char(Strip::WhiteSpace, c) <==> drop(c) by {
        lemma_blanks(c);
    }
    lemma_trim_parts(s, Strip::WhiteSpace, drop);
}

/// Trimming a character takes it off both ends, all of it, and nothing else.
pub proof fn law_trim_only(s: Seq<char>, d: char)
    ensures
        is_core_without(s, trim(s, Strip::Only(d)), d),
{
    lemma_trim_parts(s, Strip::Only(d), |c: char| c == d);
}

/// What is left without white space is the trimmed text.
pub proof fn lemma_trim_space_is(s: Seq<char>, core: Seq<char>)
    requires
        is_blank_core(s, core),
    ensures
        trim_space(s) == core,
{
    law_trim_space(s);
    law_one_core(s, trim_space(s), core, |c: char| is_blank(c));
}

/// A text that has no white space at its ends is its own trim.
pub proof fn lemma_own_core(s: Seq<char>)
    requires
        s.len() > 0 ==> !is_blank(s[0]) && !is_blank(s.last()),
    ensures
        is_blank_core(s, s),
{
    let none = Seq::<char>::empty();
    assert(none + s + none =~= s);
    assert(all_dropped(none, |c: char| is_blank(c)));
}

/// Lower case keeps the length, changes 'A' to 'Z' to 'a' to 'z' and no other character.
pub proof fn law_lower(s: Seq<char>)
    ensures
        is_lowered(s, lower(s)),
{
}

/// There is one lower-case form.
pub proof fn lemma_lower_is(s: Seq<char>, low: Seq<char>)
    requires
        is_lowered(s, low),
    ensures
        lower(s) == low,
{
    law_lower(s);
    assert forall|i: int| 0 <= i < s.len() implies lower(s)[i] == low[i] by {
        assert(lower(s)[i] as int == low[i] as int);
    }
    assert(lower(s) =~= low);
}

/// A text is cut at the first place where the character stands, and only if it stands there.
pub proof fn law_split_once(s: Seq<char>, c: char, a: Seq<char>, b: Seq<char>)
    ensures
        split_once(s, c) == Some((a, b)) <==> s == a + seq![c] + b && !a.contains(c),
        split_once(s, c) is None <==> !s.contains(c),
{
    lemma_find(s, c);
    let k = find(s, c);
    if s.contains(c) {
        assert(s =~= s.take(k) + seq![c] + s.skip(k + 1));
        assert(!s.take(k).contains(c));
    }
    if s == a + seq![c] + b && !a.contains(c) {
        let n = a.len() as int;
        assert(s[n] == c);
        assert forall|j: int| 0 <= j < n implies s[j] != c by {
            assert(s[j] == a[j]);
        }
        lemma_find_is(s, c, n);
        assert(s.take(n) =~= a);
        assert(s.skip(n + 1) =~= b);
    }
}

/// The pieces of a text hold no separator, and with separators between them make the text.
pub proof fn law_split(s: Seq<char>, c: char)
    ensures
        split(s, c).len() > 0,
        forall|i: int| 0 <= i < split(s, c).len() ==> !(#[trigger] split(s, c)[i]).contains(c),
        join(split(s, c), seq![c]) == s,
    decreases s.len(),
{
    lemma_find(s, c);
    if s.contains(c) {
        let k = find(s, c);
        let rest = s.skip(k + 1);
        law_split(rest, c);
        let all = split(s, c);
        assert(all.skip(1) =~= split(rest, c));
        assert(all[0] == s.take(k));
        assert(join(all, seq![c]) =~= s.take(k) + seq![c] + rest);
        assert(s =~= s.take(k) + seq![c] + rest);
        assert forall|i: int| 0 <= i < all.len() implies !(#[trigger] all[i]).contains(c) by {
            if i > 0 {
                assert(all[i] == split(rest, c)[i - 1]);
            }
        }
    }
}

/// A join is its pieces one after the other, with the separator between neighbours.
pub proof fn law_join(pieces: Seq<Seq<char>>, last: Seq<char>, sep: Seq<char>)
    ensures
        join(Seq::<Seq<char>>::empty(), sep) == Seq::<char>::empty(),
        join(seq![last], sep) == last,
        pieces.len() > 0 ==> join(pieces.push(last), sep) == join(pieces, sep) + sep + last,
{
    lemma_join_push(pieces, last, sep);
}

/// Texts go by the number of the first character in which they differ; a text comes before
/// every longer one that begins with it.
pub proof fn law_text_order(a: Seq<char>, b: Seq<char>)
    ensures
        text_less(a, b) <==> exists|k: int| #[trigger] differs_first_at(a, b, k),
    decreases a.len(),
{
    if a.len() > 0 && b.len() > 0 && a[0] == b[0] {
        let x = a.skip(1);
        let y = b.skip(1);
        law_text_order(x, y);
        if text_less(a, b) {
            let k = choose|k: int| #[trigger] differs_first_at(x, y, k);
            assert forall|i: int| 0 <= i < k + 1 implies a[i] == b[i] by {
                if i > 0 {
                    assert(x[i - 1] == y[i - 1]);
                }
            }
            assert(differs_first_at(a, b, k + 1));
        }
        if exists|k: int| #[trigger] differs_first_at(a, b, k) {
            let k = choose|k: int| #[trigger] differs_first_at(a, b, k);
            assert forall|i: int| 0 <= i < k - 1 implies x[i] == y[i] by {
                assert(a[i + 1] == b[i + 1]);
            }
            assert(differs_first_at(x, y, k - 1));
        }
    } else {
        if text_less(a, b) {
            assert(differs_first_at(a, b, 0));
        }
        if exists|k: int| #[trigger] differs_first_at(a, b, k) {
            let k = choose|k: int| #[trigger] differs_first_at(a, b, k);
            if k > 0 {
                assert(a[0] == b[0]);
            }
        }
    }
}

/// Whether two texts agree up to a place, and there the first ends or has the lower character.
pub open spec fn differs_first_at(a: Seq<char>, b: Seq<char>, k: int) -> bool {
    &&& 0 <= k <= a.len()
    &&& k < b.len()
    &&& forall|i: int| 0 <= i < k ==> a[i] == b[i]
    &&& k < a.len() ==> (a[k] as int) < (b[k] as int)
}

} // verus!
