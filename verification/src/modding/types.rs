//! Definition ids, handles and registries.

use std::marker::PhantomData;

use vstd::prelude::*;

verus! {

// ---------------------------------------------------------------------------
// Splitting an id into `::`-separated segments
// ---------------------------------------------------------------------------

/// `s` holds the separator `::` at position `i`.
pub open spec fn sep_at(s: Seq<char>, i: int) -> bool {
    0 <= i && i + 1 < s.len() && s[i] == ':' && s[i + 1] == ':'
}

/// The first position at or after `from` where a separator starts, or the
/// length of `s` when there is none.
pub open spec fn next_sep(s: Seq<char>, from: int) -> int
    decreases s.len() - from,
{
    if from < 0 || from + 1 >= s.len() {
        s.len() as int
    } else if sep_at(s, from) {
        from
    } else {
        next_sep(s, from + 1)
    }
}

pub proof fn lemma_next_sep_bounds(s: Seq<char>, from: int)
    requires
        0 <= from <= s.len(),
    ensures
        from <= next_sep(s, from) <= s.len(),
        next_sep(s, from) < s.len() ==> sep_at(s, next_sep(s, from)),
        forall|j: int| from <= j < next_sep(s, from) ==> !sep_at(s, j),
    decreases s.len() - from,
{
    if from + 1 >= s.len() {
    } else if sep_at(s, from) {
    } else {
        lemma_next_sep_bounds(s, from + 1);
    }
}

/// The segments of `s` from position `start` on, split at each `::` from
/// left to right, as `str::split("::")` yields them.
pub open spec fn split_from(s: Seq<char>, start: int) -> Seq<Seq<char>>
    decreases s.len() - start,
    when 0 <= start <= s.len()
    via split_from_decreases
{
    let i = next_sep(s, start);
    if i >= s.len() {
        seq![s.subrange(start, s.len() as int)]
    } else {
        seq![s.subrange(start, i)].add(split_from(s, i + 2))
    }
}

#[via_fn]
proof fn split_from_decreases(s: Seq<char>, start: int) {
    lemma_next_sep_bounds(s, start);
}

/// The segments of `s`.
pub open spec fn segments_of(s: Seq<char>) -> Seq<Seq<char>> {
    split_from(s, 0)
}

proof fn lemma_next_sep_shift(p: Seq<char>, s: Seq<char>, k: int)
    requires
        0 <= k <= s.len(),
    ensures
        next_sep(p + s, p.len() + k) == p.len() + next_sep(s, k),
    decreases s.len() - k,
{
    let t = p + s;
    if k + 1 >= s.len() {
    } else {
        assert(t[p.len() + k] == s[k] && t[p.len() + k + 1] == s[k + 1]);
        if !sep_at(s, k) {
            lemma_next_sep_shift(p, s, k + 1);
        }
    }
}

/// Splitting after a prefix is splitting what follows it.
proof fn lemma_split_shift(p: Seq<char>, s: Seq<char>, k: int)
    requires
        0 <= k <= s.len(),
    ensures
        split_from(p + s, p.len() + k) == split_from(s, k),
    decreases s.len() - k,
{
    let t = p + s;
    lemma_next_sep_shift(p, s, k);
    lemma_next_sep_bounds(s, k);
    let i = next_sep(s, k);
    if i >= s.len() {
        assert(t.subrange(p.len() + k, t.len() as int) =~= s.subrange(k, s.len() as int));
    } else {
        assert(t.subrange(p.len() + k, p.len() + i) =~= s.subrange(k, i));
        lemma_split_shift(p, s, i + 2);
    }
}

/// The last segment from `start` on is a suffix of `s`.
proof fn lemma_last_segment(s: Seq<char>, start: int)
    requires
        0 <= start <= s.len(),
    ensures
        split_from(s, start).len() > 0,
        exists|j: int|
            start <= j <= s.len() && split_from(s, start).last() == s.subrange(j, s.len() as int),
    decreases s.len() - start,
{
    lemma_next_sep_bounds(s, start);
    let i = next_sep(s, start);
    if i >= s.len() {
        assert(split_from(s, start).last() == s.subrange(start, s.len() as int));
    } else {
        lemma_last_segment(s, i + 2);
        let rest = split_from(s, i + 2);
        assert(split_from(s, start).last() == rest.last());
    }
}

proof fn lemma_next_sep_join(a: Seq<char>, b: Seq<char>, st: int)
    requires
        a.len() > 0,
        a.last() != ':',
        0 <= st <= a.len(),
    ensures
        next_sep(a + seq![':', ':'] + b, st) == next_sep(a, st),
    decreases a.len() - st,
{
    let t = a + seq![':', ':'] + b;
    if st + 1 >= a.len() {
        assert(t[a.len() as int] == ':' && t[a.len() as int + 1] == ':');
        assert(sep_at(t, a.len() as int));
        assert(next_sep(t, a.len() as int) == a.len());
        if st == a.len() - 1 {
            assert(t[st] == a.last());
            assert(!sep_at(t, st));
            assert(next_sep(t, st) == next_sep(t, st + 1));
        }
    } else {
        assert(t[st] == a[st] && t[st + 1] == a[st + 1]);
        if !sep_at(a, st) {
            lemma_next_sep_join(a, b, st + 1);
        }
    }
}

/// Joining with `::` splits into the segments of both sides, when the left
/// side does not end with `:`.
proof fn lemma_split_join(a: Seq<char>, b: Seq<char>, st: int)
    requires
        a.len() > 0,
        a.last() != ':',
        0 <= st <= a.len(),
    ensures
        split_from(a + seq![':', ':'] + b, st) == split_from(a, st) + split_from(b, 0),
    decreases a.len() - st,
{
    let t = a + seq![':', ':'] + b;
    lemma_next_sep_join(a, b, st);
    lemma_next_sep_bounds(a, st);
    let i = next_sep(a, st);
    if i >= a.len() {
        assert(t.subrange(st, i) =~= a.subrange(st, a.len() as int));
        assert(t =~= (a + seq![':', ':']) + b);
        lemma_split_shift(a + seq![':', ':'], b, 0);
        assert(split_from(a, st) =~= seq![a.subrange(st, a.len() as int)]);
    } else {
        assert(t.subrange(st, i) =~= a.subrange(st, i));
        lemma_split_join(a, b, i + 2);
        assert(seq![a.subrange(st, i)].add(split_from(a, i + 2)).add(split_from(b, 0))
            =~= seq![a.subrange(st, i)].add(split_from(a, i + 2).add(split_from(b, 0))));
    }
}

/// `c` is one of `0` to `9`.
pub open spec fn is_ascii_digit(c: char) -> bool {
    48 <= (c as u32) <= 57
}

/// `c` is one of `a` to `z`.
pub open spec fn is_ascii_lowercase(c: char) -> bool {
    97 <= (c as u32) <= 122
}

pub open spec fn is_segment_char(c: char) -> bool {
    is_ascii_lowercase(c) || is_ascii_digit(c) || (c as u32) == 95
}

/// A segment is non-empty, holds only lowercase letters, digits and
/// underscores, does not start or end with an underscore and does not start
/// with a digit.
pub open spec fn valid_segment(seg: Seq<char>) -> bool {
    &&& seg.len() > 0
    &&& seg[0] != '_'
    &&& seg[seg.len() - 1] != '_'
    &&& !is_ascii_digit(seg[0])
    &&& forall|k: int| 0 <= k < seg.len() ==> is_segment_char(#[trigger] seg[k])
}

/// `s` is a non-empty id of at least `min_segments` valid segments.
pub open spec fn valid_id_with(s: Seq<char>, min_segments: nat) -> bool {
    &&& s.len() > 0
    &&& segments_of(s).len() >= min_segments
    &&& forall|k: int| 0 <= k < segments_of(s).len() ==> valid_segment(#[trigger] segments_of(s)[k])
}

/// A valid id: one or more segments.
pub open spec fn valid_id(s: Seq<char>) -> bool {
    valid_id_with(s, 1)
}

/// A valid qualified id: two or more segments.
pub open spec fn valid_qualified_id(s: Seq<char>) -> bool {
    valid_id_with(s, 2)
}

/// Joining two valid ids with `::` gives a valid qualified id whose
/// segments are those of the two ids in turn.
pub proof fn law_join_valid(a: Seq<char>, b: Seq<char>)
    requires
        valid_id(a),
        valid_id(b),
    ensures
        segments_of(a + seq![':', ':'] + b) == segments_of(a) + segments_of(b),
        valid_qualified_id(a + seq![':', ':'] + b),
{
    lemma_last_segment(a, 0);
    let segs = segments_of(a);
    let last = segs.last();
    assert(valid_segment(segs[segs.len() - 1]));
    let j = choose|j: int| 0 <= j <= a.len() && last == a.subrange(j, a.len() as int);
    assert(a.last() == last[last.len() - 1]);
    assert(is_segment_char(last[last.len() - 1]));
    assert(a.last() != ':');
    lemma_split_join(a, b, 0);
    let t = a + seq![':', ':'] + b;
    let all = segments_of(t);
    assert forall|k: int| 0 <= k < all.len() implies valid_segment(#[trigger] all[k]) by {
        if k < segs.len() {
            assert(all[k] == segs[k]);
        } else {
            assert(all[k] == segments_of(b)[k - segs.len()]);
        }
    }
}

/// Each position of `s` from `start` on lies in a segment that `split_from`
/// gives or in a separator between two of them.
proof fn lemma_split_chars(s: Seq<char>, start: int)
    requires
        0 <= start <= s.len(),
        forall|k: int|
            0 <= k < split_from(s, start).len() ==> valid_segment(
                #[trigger] split_from(s, start)[k],
            ),
    ensures
        forall|i: int| start <= i < s.len() ==> is_segment_char(#[trigger] s[i]) || s[i] == ':',
    decreases s.len() - start,
{
    lemma_next_sep_bounds(s, start);
    let i = next_sep(s, start);
    let segs = split_from(s, start);
    assert(valid_segment(segs[0]));
    if i >= s.len() {
        assert(segs[0] == s.subrange(start, s.len() as int));
        assert forall|j: int| start <= j < s.len() implies is_segment_char(#[trigger] s[j])
            || s[j] == ':' by {
            assert(s[j] == segs[0][j - start]);
        }
    } else {
        let rest = split_from(s, i + 2);
        assert(segs == seq![s.subrange(start, i)].add(rest));
        assert forall|k: int| 0 <= k < rest.len() implies valid_segment(#[trigger] rest[k]) by {
            assert(rest[k] == segs[k + 1]);
        }
        lemma_split_chars(s, i + 2);
        assert forall|j: int| start <= j < s.len() implies is_segment_char(#[trigger] s[j])
            || s[j] == ':' by {
            if j < i {
                assert(s[j] == segs[0][j - start]);
            } else if j < i + 2 {
                assert(sep_at(s, i));
            }
        }
    }
}

/// A valid id holds only the lowercase letters `a` to `z`, the digits `0`
/// to `9`, underscores and the colons of its `::` separators, and starts
/// with none of the last three. So a text with an uppercase letter `A` to `Z`,
/// or any other character, is no valid id.
pub proof fn law_valid_id_chars(s: Seq<char>, min_segments: nat)
    requires
        valid_id_with(s, min_segments),
    ensures
        forall|i: int|
            #![trigger s[i]]
            0 <= i < s.len() ==> (97 <= (s[i] as u32) <= 122) || (48 <= (s[i] as u32) <= 57) || (
            s[i] as u32) == 95 || (s[i] as u32) == 58,
        forall|i: int| #![trigger s[i]] 0 <= i < s.len() ==> !(65 <= (s[i] as u32) <= 90),
        s[0] != '_' && s[0] != ':' && !(48 <= (s[0] as u32) <= 57),
{
    lemma_split_chars(s, 0);
    lemma_next_sep_bounds(s, 0);
    let segs = segments_of(s);
    let i = next_sep(s, 0);
    assert(valid_segment(segs[0]));
    if i >= s.len() {
        assert(segs[0] == s.subrange(0, s.len() as int));
    } else {
        assert(segs[0] == s.subrange(0, i));
    }
    assert(segs[0][0] == s[0]);
}

/// A non-empty word of lowercase letters `a` to `z` is a valid id of one
/// segment: itself.
pub proof fn law_lowercase_word_valid(s: Seq<char>)
    requires
        s.len() > 0,
        forall|i: int| 0 <= i < s.len() ==> 97 <= (#[trigger] s[i] as u32) <= 122,
    ensures
        segments_of(s) == seq![s],
        valid_id(s),
{
    lemma_next_sep_bounds(s, 0);
    if next_sep(s, 0) < s.len() {
        assert(s[next_sep(s, 0)] == ':');
    }
    assert(s.subrange(0, s.len() as int) =~= s);
    assert(s[0] != '_');
    assert(s[s.len() - 1] != '_');
}

/// `c` may stand in an id: a lowercase letter `a` to `z`, a digit, an
/// underscore or a colon.
pub open spec fn id_char(c: char) -> bool {
    (97 <= (c as u32) <= 122) || (48 <= (c as u32) <= 57) || (c as u32) == 95 || c == ':'
}

/// The character at position `i` of `s` is in place in an id read from
/// `start` on: it is an id character; a colon after a character other than
/// a colon starts a run of exactly two colons that the text goes on after;
/// a character that starts a segment is neither an underscore nor a digit;
/// and one that ends a segment is no underscore.
pub open spec fn id_char_in_place(s: Seq<char>, start: int, i: int) -> bool {
    &&& id_char(s[i])
    &&& (start < i && s[i] == ':' && s[i - 1] != ':') ==> (i + 2 < s.len() && s[i + 1] == ':'
        && s[i + 2] != ':')
    &&& ((i == start || s[i - 1] == ':') && s[i] != ':') ==> (s[i] != '_' && !(48 <= (s[i] as u32)
        <= 57))
    &&& ((i + 1 == s.len() || s[i + 1] == ':') && s[i] != ':') ==> s[i] != '_'
}

/// `s` from position `start` on is an id, read character by character: it
/// is not empty, neither starts nor ends with a colon, and each of its
/// characters is in place.
pub open spec fn id_text_from(s: Seq<char>, start: int) -> bool {
    &&& 0 <= start < s.len()
    &&& s[start] != ':'
    &&& s[s.len() - 1] != ':'
    &&& forall|i: int| start <= i < s.len() ==> #[trigger] id_char_in_place(s, start, i)
}

/// A text from `start` on with no separator is one valid segment exactly
/// when it reads as an id.
proof fn lemma_id_text_single(s: Seq<char>, start: int)
    requires
        0 <= start <= s.len(),
        next_sep(s, start) >= s.len(),
    ensures
        valid_segment(s.subrange(start, s.len() as int)) <==> id_text_from(s, start),
{
    lemma_next_sep_bounds(s, start);
    let n = s.len() as int;
    let seg = s.subrange(start, n);
    if valid_segment(seg) {
        assert forall|j: int| start <= j < n implies s[j] != ':' && is_segment_char(s[j]) by {
            assert(s[j] == seg[j - start]);
        }
        assert(s[start] == seg[0]);
        assert(s[n - 1] == seg[seg.len() - 1]);
        assert forall|j: int| start <= j < n implies #[trigger] id_char_in_place(s, start, j) by {
            assert(s[j] != ':' && is_segment_char(s[j]));
            if j + 1 < n {
                assert(s[j + 1] != ':');
            }
        }
    }
    if id_text_from(s, start) {
        assert forall|j: int| start <= j < n implies s[j] != ':' by {
            assert(id_char_in_place(s, start, j));
            if j > start && s[j] == ':' {
                if s[j - 1] == ':' {
                    assert(sep_at(s, j - 1));
                } else {
                    assert(sep_at(s, j));
                }
            }
        }
        assert forall|k: int| 0 <= k < seg.len() implies is_segment_char(#[trigger] seg[k]) by {
            assert(seg[k] == s[start + k]);
            assert(id_char_in_place(s, start, start + k));
        }
        assert(s[start] == seg[0]);
        assert(s[n - 1] == seg[seg.len() - 1]);
        assert(id_char_in_place(s, start, start));
        assert(id_char_in_place(s, start, n - 1));
    }
}

/// A valid first segment followed by `::` and a text that reads as an id
/// reads as an id.
proof fn lemma_id_text_join(s: Seq<char>, start: int)
    requires
        0 <= start <= s.len(),
        next_sep(s, start) < s.len(),
        valid_segment(s.subrange(start, next_sep(s, start))),
        id_text_from(s, next_sep(s, start) + 2),
    ensures
        id_text_from(s, start),
{
    lemma_next_sep_bounds(s, start);
    let i = next_sep(s, start);
    let n = s.len() as int;
    let seg = s.subrange(start, i);
    assert forall|j: int| start <= j < i implies s[j] != ':' && is_segment_char(s[j]) by {
        assert(s[j] == seg[j - start]);
    }
    assert(s[start] == seg[0]);
    assert(s[i - 1] == seg[seg.len() - 1]);
    assert(s[i] == ':' && s[i + 1] == ':');
    assert(id_char_in_place(s, i + 2, i + 2));
    assert forall|j: int| start <= j < n implies #[trigger] id_char_in_place(s, start, j) by {
        if j < i {
            assert(s[j] != ':' && is_segment_char(s[j]));
            if j + 1 < i {
                assert(s[j + 1] != ':');
            }
            if start < j {
                assert(s[j - 1] != ':');
            }
        } else if j < i + 2 {
        } else {
            assert(id_char_in_place(s, i + 2, j));
        }
    }
}

/// A text that reads as an id and holds a separator has a valid first
/// segment, and reads as an id after that separator.
proof fn lemma_id_text_split(s: Seq<char>, start: int)
    requires
        0 <= start <= s.len(),
        next_sep(s, start) < s.len(),
        id_text_from(s, start),
    ensures
        valid_segment(s.subrange(start, next_sep(s, start))),
        id_text_from(s, next_sep(s, start) + 2),
{
    lemma_next_sep_bounds(s, start);
    let i = next_sep(s, start);
    let n = s.len() as int;
    let seg = s.subrange(start, i);
    assert(sep_at(s, i));
    assert(i > start);
    assert forall|j: int| start <= j < i implies s[j] != ':' by {
        assert(id_char_in_place(s, start, j));
        if j > start && s[j] == ':' {
            if s[j - 1] == ':' {
                assert(sep_at(s, j - 1));
            } else {
                assert(sep_at(s, j));
            }
        }
    }
    assert forall|k: int| 0 <= k < seg.len() implies is_segment_char(#[trigger] seg[k]) by {
        assert(seg[k] == s[start + k]);
        assert(id_char_in_place(s, start, start + k));
    }
    assert(s[start] == seg[0]);
    assert(s[i - 1] == seg[seg.len() - 1]);
    assert(s[i - 1] != ':');
    assert(id_char_in_place(s, start, start));
    assert(id_char_in_place(s, start, i - 1));
    assert(id_char_in_place(s, start, i));
    assert(i + 2 < n && s[i + 2] != ':');
    assert forall|j: int| i + 2 <= j < n implies #[trigger] id_char_in_place(s, i + 2, j) by {
        assert(id_char_in_place(s, start, j));
    }
}

/// The segments from `start` on are all valid exactly when the text from
/// `start` on reads as an id.
proof fn lemma_id_text_from(s: Seq<char>, start: int)
    requires
        0 <= start <= s.len(),
    ensures
        (forall|k: int|
            0 <= k < split_from(s, start).len() ==> valid_segment(
                #[trigger] split_from(s, start)[k],
            )) <==> id_text_from(s, start),
    decreases s.len() - start,
{
    lemma_next_sep_bounds(s, start);
    let i = next_sep(s, start);
    let segs = split_from(s, start);
    let n = s.len() as int;
    if i >= n {
        let seg = s.subrange(start, n);
        assert(segs == seq![seg]);
        assert(segs.len() == 1 && segs[0] == seg);
        lemma_id_text_single(s, start);
        if valid_segment(seg) {
            assert forall|k: int| 0 <= k < segs.len() implies valid_segment(#[trigger] segs[k]) by {
                assert(k == 0);
            }
        }
    } else {
        let seg = s.subrange(start, i);
        let rest = split_from(s, i + 2);
        assert(segs == seq![seg].add(rest));
        lemma_id_text_from(s, i + 2);
        if forall|k: int| 0 <= k < segs.len() ==> valid_segment(#[trigger] segs[k]) {
            assert(segs[0] == seg);
            assert forall|k: int| 0 <= k < rest.len() implies valid_segment(#[trigger] rest[k]) by {
                assert(rest[k] == segs[k + 1]);
            }
            lemma_id_text_join(s, start);
        }
        if id_text_from(s, start) {
            lemma_id_text_split(s, start);
            assert forall|k: int| 0 <= k < segs.len() implies valid_segment(#[trigger] segs[k]) by {
                if k > 0 {
                    assert(segs[k] == rest[k - 1]);
                }
            }
        }
    }
}

/// Validity of an id, read character by character: a text is a valid id
/// exactly when it reads as one (see `id_text_from`), and a valid qualified
/// id exactly when it also holds a colon.
pub proof fn law_valid_id_text(s: Seq<char>)
    ensures
        valid_id(s) <==> id_text_from(s, 0),
        valid_qualified_id(s) <==> id_text_from(s, 0) && s.contains(':'),
{
    lemma_id_text_from(s, 0);
    lemma_next_sep_bounds(s, 0);
    let i = next_sep(s, 0);
    if i < s.len() {
        assert(sep_at(s, i));
        lemma_last_segment(s, i + 2);
        assert(s[i] == ':');
        assert(segments_of(s).len() >= 2);
    } else {
        assert(segments_of(s).len() == 1);
        if id_text_from(s, 0) && s.contains(':') {
            let j = choose|j: int| 0 <= j < s.len() && s[j] == ':';
            assert(id_char_in_place(s, 0, j));
            if s[j - 1] == ':' {
                assert(sep_at(s, j - 1));
            } else {
                assert(sep_at(s, j));
            }
        }
    }
}

/// The characters of `s`.
pub fn chars_of(s: &str) -> (r: Vec<char>)
    ensures
        r@ == s@,
{
    let n = s.unicode_len();
    let mut v: Vec<char> = Vec::new();
    let mut i: usize = 0;
    while i < n
        invariant
            n == s@.len(),
            i <= n,
            v@ == s@.subrange(0, i as int),
        decreases n - i,
    {
        v.push(s.get_char(i));
        i = i + 1;
    }
    v
}

/// The ranges `(start, end)` of the segments of `cs`, in order.
fn split_ranges(cs: &Vec<char>) -> (r: Vec<(usize, usize)>)
    ensures
        r@.len() == segments_of(cs@).len(),
        forall|k: int|
            #![trigger r@[k]]
            0 <= k < r@.len() ==> {
                &&& r@[k].0 <= r@[k].1 <= cs@.len()
                &&& segments_of(cs@)[k] == cs@.subrange(r@[k].0 as int, r@[k].1 as int)
            },
{
    let n = cs.len();
    let mut ranges: Vec<(usize, usize)> = Vec::new();
    let mut start: usize = 0;
    let mut i: usize = 0;
    let ghost s = cs@;
    proof {
        lemma_next_sep_bounds(s, 0);
    }
    while i < n
        invariant
            s == cs@,
            n == s.len(),
            start <= i <= n,
            next_sep(s, start as int) == next_sep(s, i as int) || i == n && next_sep(s, start as int) == n,
            next_sep(s, start as int) >= i,
            forall|k: int|
                0 <= k < ranges@.len() ==> (#[trigger] ranges@[k]).0 <= ranges@[k].1 <= n,
            ranges@.len() + split_from(s, start as int).len() == segments_of(s).len(),
            forall|k: int|
                0 <= k < ranges@.len() ==> segments_of(s)[k] == s.subrange(
                    (#[trigger] ranges@[k]).0 as int,
                    ranges@[k].1 as int,
                ),
            forall|k: int|
                0 <= k < split_from(s, start as int).len() ==> #[trigger] segments_of(s)[ranges@.len() + k]
                    == split_from(s, start as int)[k],
        decreases n - i,
    {
        if i + 1 < n && cs[i] == ':' && cs[i + 1] == ':' {
            proof {
                lemma_next_sep_bounds(s, start as int);
                assert(sep_at(s, i as int));
                assert(next_sep(s, start as int) == i);
                lemma_next_sep_bounds(s, i as int + 2);
                let rest = split_from(s, i as int + 2);
                let here = split_from(s, start as int);
                assert(here == seq![s.subrange(start as int, i as int)].add(rest));
                assert(segments_of(s)[ranges@.len() + 0int] == here[0]);
                assert(here[0] == s.subrange(start as int, i as int));
                assert forall|k: int| 0 <= k < rest.len() implies #[trigger] segments_of(s)[ranges@.len() + 1 + k]
                    == rest[k] by {
                    assert(segments_of(s)[ranges@.len() + (1 + k)] == here[1 + k]);
                    assert(here[1 + k] == rest[k]);
                }
            }
            ranges.push((start, i));
            i = i + 2;
            start = i;
        } else {
            proof {
                lemma_next_sep_bounds(s, i as int);
                assert(!sep_at(s, i as int));
            }
            i = i + 1;
        }
    }
    proof {
        lemma_next_sep_bounds(s, start as int);
        assert(split_from(s, start as int) == seq![s.subrange(start as int, n as int)]);
        assert(segments_of(s)[ranges@.len() + 0int] == split_from(s, start as int)[0]);
    }
    ranges.push((start, n));
    ranges
}

// ---------------------------------------------------------------------------
// DefId
// ---------------------------------------------------------------------------

/// A `::`-separated id of a definition or a mod. The constructors check it;
/// `join` does not.
#[derive(Debug, Eq, PartialOrd, Ord, Hash)]
pub struct DefId(String);

impl View for DefId {
    type V = Seq<char>;

    closed spec fn view(&self) -> Seq<char> {
        self.0@
    }
}

impl Clone for DefId {
    fn clone(&self) -> (r: DefId)
        ensures
            r@ == self@,
    {
        DefId(self.0.clone())
    }
}

impl PartialEq for DefId {
    fn eq(&self, other: &DefId) -> (r: bool) {
        self.0 == other.0
    }
}

impl vstd::std_specs::cmp::PartialEqSpecImpl for DefId {
    open spec fn obeys_eq_spec() -> bool {
        true
    }

    open spec fn eq_spec(&self, other: &DefId) -> bool {
        self@ == other@
    }
}

fn check_segment(cs: &Vec<char>, start: usize, end: usize) -> (r: bool)
    requires
        start <= end <= cs@.len(),
    ensures
        r == valid_segment(cs@.subrange(start as int, end as int)),
{
    let ghost seg = cs@.subrange(start as int, end as int);
    if start == end {
        return false;
    }
    let first = cs[start];
    let last = cs[end - 1];
    if first == '_' || last == '_' {
        return false;
    }
    let f = first as u32;
    if 48 <= f && f <= 57 {
        return false;
    }
    let mut k: usize = start;
    while k < end
        invariant
            start <= k <= end <= cs@.len(),
            seg == cs@.subrange(start as int, end as int),
            forall|j: int| 0 <= j < k - start ==> is_segment_char(#[trigger] seg[j]),
        decreases end - k,
    {
        let c = cs[k] as u32;
        if !((97 <= c && c <= 122) || (48 <= c && c <= 57) || c == 95) {
            assert(!is_segment_char(seg[k - start]));
            return false;
        }
        assert(seg[k - start] == cs@[k as int]);
        k = k + 1;
    }
    true
}

/// Whether `id` is a non-empty id of at least `min_segments` valid segments.
fn validate_id(id: &str, min_segments: usize) -> (r: bool)
    ensures
        r == valid_id_with(id@, min_segments as nat),
{
    let cs = chars_of(id);
    if cs.len() == 0 {
        return false;
    }
    let ranges = split_ranges(&cs);
    if ranges.len() < min_segments {
        return false;
    }
    let mut k: usize = 0;
    while k < ranges.len()
        invariant
            cs@ == id@,
            ranges@.len() == segments_of(cs@).len(),
            forall|j: int|
                #![trigger ranges@[j]]
                0 <= j < ranges@.len() ==> {
                    &&& ranges@[j].0 <= ranges@[j].1 <= cs@.len()
                    &&& segments_of(cs@)[j] == cs@.subrange(
                        ranges@[j].0 as int,
                        ranges@[j].1 as int,
                    )
                },
            forall|j: int| 0 <= j < k ==> valid_segment(#[trigger] segments_of(cs@)[j]),
        decreases ranges@.len() - k,
    {
        let (a, b) = ranges[k];
        if !check_segment(&cs, a, b) {
            assert(!valid_segment(segments_of(cs@)[k as int]));
            return false;
        }
        k = k + 1;
    }
    true
}

impl DefId {
    /// A `DefId` for a valid id, `None` otherwise.
    pub fn new(id: &str) -> (r: Option<DefId>)
        ensures
            valid_id(id@) ==> r is Some && r->0@ == id@,
            !valid_id(id@) ==> r is None,
    {
        if !DefId::is_valid_id(id) {
            return None;
        }
        Some(DefId(id.to_owned()))
    }

    /// A `DefId` for a valid qualified id (two or more segments), `None` otherwise.
    pub fn new_qualified(id: &str) -> (r: Option<DefId>)
        ensures
            valid_qualified_id(id@) ==> r is Some && r->0@ == id@,
            !valid_qualified_id(id@) ==> r is None,
    {
        if !DefId::is_valid_qualified_id(id) {
            return None;
        }
        Some(DefId(id.to_owned()))
    }

    /// `self::other`.
    pub fn join(&self, other: DefId) -> (r: DefId)
        ensures
            r@ == self@ + seq![':', ':'] + other@,
    {
        let mut s = self.0.clone();
        let sep = "::";
        proof {
            reveal_strlit("::");
        }
        s.append(sep);
        s.append(other.0.as_str());
        DefId(s)
    }

    /// The segments of the id, in order.
    pub fn segments(&self) -> (r: Vec<String>)
        ensures
            r@.len() == segments_of(self@).len(),
            forall|k: int| 0 <= k < r@.len() ==> #[trigger] r@[k]@ == segments_of(self@)[k],
    {
        let text = self.0.as_str();
        let cs = chars_of(text);
        let ranges = split_ranges(&cs);
        let mut out: Vec<String> = Vec::new();
        let mut k: usize = 0;
        while k < ranges.len()
            invariant
                cs@ == self@,
                text@ == self@,
                ranges@.len() == segments_of(cs@).len(),
                forall|j: int|
                    #![trigger ranges@[j]]
                    0 <= j < ranges@.len() ==> {
                        &&& ranges@[j].0 <= ranges@[j].1 <= cs@.len()
                        &&& segments_of(cs@)[j] == cs@.subrange(
                            ranges@[j].0 as int,
                            ranges@[j].1 as int,
                        )
                    },
                out@.len() == k,
                k <= ranges@.len(),
                forall|j: int| 0 <= j < k ==> #[trigger] out@[j]@ == segments_of(cs@)[j],
            decreases ranges@.len() - k,
        {
            let (a, b) = ranges[k];
            let piece = text.substring_char(a, b);
            out.push(piece.to_owned());
            k = k + 1;
        }
        out
    }

    pub fn is_valid_id(id: &str) -> (r: bool)
        ensures
            r == valid_id(id@),
            r ==> forall|i: int|
                #![trigger id@[i]]
                0 <= i < id@.len() ==> (97 <= (id@[i] as u32) <= 122) || (48 <= (id@[i] as u32)
                    <= 57) || (id@[i] as u32) == 95 || (id@[i] as u32) == 58,
            r == id_text_from(id@, 0),
    {
        let r = validate_id(id, 1);
        proof {
            law_valid_id_text(id@);
            if r {
                law_valid_id_chars(id@, 1);
            }
        }
        r
    }

    pub fn is_valid_qualified_id(id: &str) -> (r: bool)
        ensures
            r == valid_qualified_id(id@),
            r == (id_text_from(id@, 0) && id@.contains(':')),
    {
        let r = validate_id(id, 2);
        proof {
            law_valid_id_text(id@);
        }
        r
    }

    /// The id as a string slice.
    pub fn as_str(&self) -> (r: &str)
        ensures
            r@ == self@,
    {
        self.0.as_str()
    }

    /// The id as an owned string, as `to_string()` formats it.
    pub fn to_string(&self) -> (r: String)
        ensures
            r@ == self@,
    {
        self.0.clone()
    }
}


// ---------------------------------------------------------------------------
// DefHandle
// ---------------------------------------------------------------------------

/// A non-zero index into a registry; the handle `h` names the entry at
/// position `h - 1`.
#[derive(Debug)]
pub struct DefHandle<T> {
    value: u32,
    marker: PhantomData<T>,
}

impl<T> View for DefHandle<T> {
    type V = u32;

    closed spec fn view(&self) -> u32 {
        self.value
    }
}

proof fn lemma_usize_to_u32(x: usize)
    ensures
        (x as u32) as int == (x as int) % 0x1_0000_0000,
{
    assert((x as u32) as int == (x as int) % 0x1_0000_0000) by (bit_vector);
}

impl<T> DefHandle<T> {
    #[verifier::type_invariant]
    spec fn non_zero(self) -> bool {
        self.value != 0
    }

    /// The handle with the given non-zero value.
    pub fn new(handle: u32) -> (r: DefHandle<T>)
        requires
            handle != 0,
        ensures
            r@ == handle,
    {
        DefHandle { value: handle, marker: PhantomData }
    }

    /// The handle of the entry at `index`. The index is truncated to 32 bits,
    /// and the truncated index must not be `u32::MAX`.
    pub fn from_index(index: usize) -> (r: DefHandle<T>)
        requires
            (index as int) % 0x1_0000_0000 < u32::MAX,
        ensures
            r@ == (index as int) % 0x1_0000_0000 + 1,
    {
        proof {
            lemma_usize_to_u32(index);
        }
        DefHandle { value: index as u32 + 1, marker: PhantomData }
    }

    pub fn get(&self) -> (r: u32)
        ensures
            r == self@,
            r != 0,
    {
        proof {
            use_type_invariant(self);
        }
        self.value
    }

    pub fn to_index(&self) -> (r: usize)
        ensures
            r == self@ - 1,
    {
        proof {
            use_type_invariant(self);
        }
        (self.value - 1) as usize
    }
}

impl<T> Clone for DefHandle<T> {
    fn clone(&self) -> (r: DefHandle<T>)
        ensures
            r@ == self@,
    {
        *self
    }
}

impl<T> Copy for DefHandle<T> {
}

impl<T> PartialEq for DefHandle<T> {
    fn eq(&self, other: &DefHandle<T>) -> (r: bool) {
        self.value == other.value
    }
}

impl<T> vstd::std_specs::cmp::PartialEqSpecImpl for DefHandle<T> {
    open spec fn obeys_eq_spec() -> bool {
        true
    }

    open spec fn eq_spec(&self, other: &DefHandle<T>) -> bool {
        self@ == other@
    }
}

impl<T> Eq for DefHandle<T> {
}

// ---------------------------------------------------------------------------
// Registry
// ---------------------------------------------------------------------------

/// The views of a sequence of ids.
pub open spec fn id_views(ids: Seq<DefId>) -> Seq<Seq<char>> {
    ids.map_values(|d: DefId| d@)
}

/// No id occurs twice.
pub open spec fn ids_distinct(ids: Seq<Seq<char>>) -> bool {
    forall|i: int, j: int| 0 <= i < ids.len() && 0 <= j < ids.len() && i != j ==> ids[i] != ids[j]
}

/// The position of `id` in `ids`, or `None`.
pub fn find_id(ids: &Vec<DefId>, id: &str) -> (r: Option<usize>)
    ensures
        r is None <==> !id_views(ids@).contains(id@),
        r matches Some(k) ==> k < ids@.len() && ids@[k as int]@ == id@,
{
    let key = id.to_owned();
    let mut i: usize = 0;
    while i < ids.len()
        invariant
            key@ == id@,
            i <= ids@.len(),
            forall|j: int| 0 <= j < i ==> ids@[j]@ != id@,
        decreases ids@.len() - i,
    {
        if ids[i].0 == key {
            assert(id_views(ids@)[i as int] == id@);
            return Some(i);
        }
        i = i + 1;
    }
    proof {
        if id_views(ids@).contains(id@) {
            let j = choose|j: int| 0 <= j < id_views(ids@).len() && id_views(ids@)[j] == id@;
            assert(ids@[j]@ == id@);
        }
    }
    None
}

/// Definitions registered under ids; an entry's handle is its position plus one.
pub struct Registry<T> {
    definitions: Vec<T>,
    ids: Vec<DefId>,
}

impl<T> Registry<T> {
    /// The registered definitions, in handle order.
    pub closed spec fn defs(&self) -> Seq<T> {
        self.definitions@
    }

    /// The ids of the registered definitions, in handle order.
    pub closed spec fn ids_view(&self) -> Seq<Seq<char>> {
        id_views(self.ids@)
    }

    /// As many ids as definitions, no id twice, and every handle fits in 32 bits.
    pub closed spec fn wf(&self) -> bool {
        &&& self.definitions@.len() == self.ids@.len()
        &&& ids_distinct(id_views(self.ids@))
        &&& self.ids@.len() <= u32::MAX
    }

    /// What `wf` promises: one id per definition, no id twice, and at most
    /// `u32::MAX` definitions.
    pub proof fn lemma_wf(&self)
        requires
            self.wf(),
        ensures
            self.defs().len() == self.ids_view().len(),
            ids_distinct(self.ids_view()),
            self.defs().len() <= u32::MAX,
    {
    }

    pub fn new() -> (r: Registry<T>)
        ensures
            r.wf(),
            r.defs() == Seq::<T>::empty(),
            r.ids_view() == Seq::<Seq<char>>::empty(),
    {
        let r = Registry { definitions: Vec::new(), ids: Vec::new() };
        assert(r.ids_view() =~= Seq::<Seq<char>>::empty());
        r
    }

    /// Registers `def` under `id` and returns its handle. An existing entry
    /// with the same id is replaced and keeps its handle.
    pub fn register(&mut self, id: DefId, def: T) -> (r: DefHandle<T>)
        requires
            old(self).wf(),
            !old(self).ids_view().contains(id@) ==> old(self).defs().len() < u32::MAX,
        ensures
            final(self).wf(),
            final(self).defs().len() == final(self).ids_view().len(),
            0 < r@ <= final(self).defs().len(),
            final(self).ids_view()[r@ - 1] == id@,
            final(self).defs()[r@ - 1] == def,
            old(self).ids_view().contains(id@) ==> {
                &&& final(self).ids_view() == old(self).ids_view()
                &&& 0 < r@ <= old(self).ids_view().len()
                &&& old(self).ids_view()[r@ - 1] == id@
                &&& final(self).defs() == old(self).defs().update(r@ - 1, def)
                &&& final(self).defs().len() == old(self).defs().len()
            },
            !old(self).ids_view().contains(id@) ==> {
                &&& final(self).ids_view() == old(self).ids_view().push(id@)
                &&& final(self).defs() == old(self).defs().push(def)
                &&& r@ == old(self).defs().len() + 1
            },
    {
        match find_id(&self.ids, id.as_str()) {
            Some(k) => {
                self.definitions.set(k, def);
                assert(self.ids_view()[k as int] == id@);
                DefHandle::from_index(k)
            },
            None => {
                let n = self.definitions.len();
                let handle = DefHandle::from_index(n);
                self.definitions.push(def);
                self.ids.push(id);
                proof {
                    assert(self.ids_view() =~= old(self).ids_view().push(id@));
                }
                handle
            },
        }
    }

    pub fn clear(&mut self)
        ensures
            final(self).wf(),
            final(self).defs() == Seq::<T>::empty(),
            final(self).ids_view() == Seq::<Seq<char>>::empty(),
    {
        self.definitions.clear();
        self.ids.clear();
        assert(self.ids_view() =~= Seq::<Seq<char>>::empty());
    }

    pub fn len(&self) -> (r: usize)
        ensures
            r == self.defs().len(),
    {
        self.definitions.len()
    }

    pub fn is_empty(&self) -> (r: bool)
        ensures
            r == (self.defs().len() == 0),
    {
        self.definitions.len() == 0
    }

    /// The handle of the definition registered under `id`.
    pub fn get_handle(&self, id: &str) -> (r: Option<DefHandle<T>>)
        requires
            self.wf(),
        ensures
            r is Some <==> self.ids_view().contains(id@),
            r matches Some(h) ==> 0 < h@ <= self.ids_view().len() && self.ids_view()[h@ - 1] == id@,
    {
        match find_id(&self.ids, id) {
            Some(k) => Some(DefHandle::from_index(k)),
            None => None,
        }
    }

    /// The id of the definition with the given handle.
    pub fn resolve(&self, handle: DefHandle<T>) -> (r: Option<&DefId>)
        requires
            self.wf(),
        ensures
            handle@ - 1 < self.ids_view().len() ==> r is Some && r->0@ == self.ids_view()[handle@ - 1],
            handle@ - 1 >= self.ids_view().len() ==> r is None,
    {
        let i = handle.to_index();
        if i < self.ids.len() {
            Some(&self.ids[i])
        } else {
            None
        }
    }

    /// The definition with the given handle.
    pub fn get(&self, handle: DefHandle<T>) -> (r: Option<&T>)
        requires
            self.wf(),
        ensures
            handle@ - 1 < self.defs().len() ==> r is Some && *r->0 == self.defs()[handle@ - 1],
            handle@ - 1 >= self.defs().len() ==> r is None,
    {
        let i = handle.to_index();
        if i < self.definitions.len() {
            Some(&self.definitions[i])
        } else {
            None
        }
    }

    /// The definition registered under `id`.
    pub fn get_by_id(&self, id: &str) -> (r: Option<&T>)
        requires
            self.wf(),
        ensures
            r is Some <==> self.ids_view().contains(id@),
            r matches Some(d) ==> exists|k: int|
                0 <= k < self.ids_view().len() && self.ids_view()[k] == id@ && *d == self.defs()[k],
    {
        match self.get_handle(id) {
            Some(h) => self.get(h),
            None => None,
        }
    }

    pub fn contains(&self, handle: DefHandle<T>) -> (r: bool)
        ensures
            r == (handle@ - 1 < self.defs().len()),
    {
        self.definitions.len() > handle.to_index()
    }

    pub fn contains_id(&self, id: &str) -> (r: bool)
        ensures
            r == self.ids_view().contains(id@),
    {
        find_id(&self.ids, id).is_some()
    }

    /// The definitions, in handle order.
    pub fn iter(&self) -> (r: &[T])
        ensures
            r@ == self.defs(),
    {
        self.definitions.as_slice()
    }

    /// The ids and definitions, in handle order.
    pub fn iter_with_id(&self) -> (r: Vec<(&DefId, &T)>)
        requires
            self.wf(),
        ensures
            r@.len() == self.defs().len(),
            forall|k: int|
                0 <= k < r@.len() ==> (#[trigger] r@[k]).0@ == self.ids_view()[k] && *r@[k].1
                    == self.defs()[k],
    {
        let mut out: Vec<(&DefId, &T)> = Vec::new();
        let mut i: usize = 0;
        while i < self.definitions.len()
            invariant
                self.wf(),
                i <= self.defs().len(),
                out@.len() == i,
                forall|k: int|
                    0 <= k < i ==> (#[trigger] out@[k]).0@ == self.ids_view()[k] && *out@[k].1
                        == self.defs()[k],
            decreases self.defs().len() - i,
        {
            out.push((&self.ids[i], &self.definitions[i]));
            i = i + 1;
        }
        out
    }

    /// The handles and definitions, from the lowest handle to the highest.
    pub fn iter_with_handle(&self) -> (r: Vec<(DefHandle<T>, &T)>)
        requires
            self.wf(),
        ensures
            r@.len() == self.defs().len(),
            forall|k: int|
                0 <= k < r@.len() ==> (#[trigger] r@[k]).0@ == k + 1 && *r@[k].1 == self.defs()[k],
    {
        let mut out: Vec<(DefHandle<T>, &T)> = Vec::new();
        let mut i: usize = 0;
        while i < self.definitions.len()
            invariant
                self.wf(),
                i <= self.defs().len(),
                out@.len() == i,
                forall|k: int|
                    0 <= k < i ==> (#[trigger] out@[k]).0@ == k + 1 && *out@[k].1 == self.defs()[k],
            decreases self.defs().len() - i,
        {
            out.push((DefHandle::from_index(i), &self.definitions[i]));
            i = i + 1;
        }
        out
    }

    /// The handles, ids and definitions, from the lowest handle to the highest.
    pub fn iter_with_id_handle(&self) -> (r: Vec<(DefHandle<T>, &DefId, &T)>)
        requires
            self.wf(),
        ensures
            r@.len() == self.defs().len(),
            forall|k: int|
                0 <= k < r@.len() ==> (#[trigger] r@[k]).0@ == k + 1 && r@[k].1@ == self.ids_view()[k]
                    && *r@[k].2 == self.defs()[k],
    {
        let mut out: Vec<(DefHandle<T>, &DefId, &T)> = Vec::new();
        let mut i: usize = 0;
        while i < self.definitions.len()
            invariant
                self.wf(),
                i <= self.defs().len(),
                out@.len() == i,
                forall|k: int|
                    0 <= k < i ==> (#[trigger] out@[k]).0@ == k + 1 && out@[k].1@ == self.ids_view()[k]
                        && *out@[k].2 == self.defs()[k],
            decreases self.defs().len() - i,
        {
            out.push((DefHandle::from_index(i), &self.ids[i], &self.definitions[i]));
            i = i + 1;
        }
        out
    }
}

/// What a lookup gives back of a registration: once `register(id, def)` has
/// returned the handle `registered`, the handle that `get_handle(id)` finds
/// is that same handle, and `get` of it gives `def`.
pub proof fn law_lookup_after_register<T>(
    reg: Registry<T>,
    id: Seq<char>,
    def: T,
    registered: int,
    found: int,
)
    requires
        reg.wf(),
        0 < registered <= reg.defs().len(),
        reg.ids_view()[registered - 1] == id,
        reg.defs()[registered - 1] == def,
        0 < found <= reg.ids_view().len(),
        reg.ids_view()[found - 1] == id,
    ensures
        found == registered,
        reg.defs()[found - 1] == def,
{
}

impl<T> Default for Registry<T> {
    fn default() -> (r: Registry<T>)
        ensures
            r.wf(),
            r.defs() == Seq::<T>::empty(),
            r.ids_view() == Seq::<Seq<char>>::empty(),
    {
        Registry::new()
    }
}

// ---------------------------------------------------------------------------
// Tables of entries keyed by id
// ---------------------------------------------------------------------------

/// The first position in `entries` whose key is `key`, or `-1`.
pub open spec fn key_position<K: View<V = Seq<char>>, T>(entries: Seq<(K, T)>, key: Seq<char>) -> int
    decreases entries.len(),
{
    if entries.len() == 0 {
        -1
    } else {
        let p = key_position(entries.drop_last(), key);
        if p >= 0 {
            p
        } else if entries.last().0@ == key {
            entries.len() - 1
        } else {
            -1
        }
    }
}

/// The entries as a table keyed by id holds them: each key once, at the
/// place where it first occurs, with the entry given for it last.
pub open spec fn keyed_entries<K: View<V = Seq<char>>, T>(entries: Seq<(K, T)>) -> Seq<(K, T)>
    decreases entries.len(),
{
    if entries.len() == 0 {
        Seq::empty()
    } else {
        let d = keyed_entries(entries.drop_last());
        let e = entries.last();
        let p = key_position(d, e.0@);
        if p >= 0 {
            d.update(p, e)
        } else {
            d.push(e)
        }
    }
}

/// No key occurs twice among `entries`.
pub open spec fn keys_distinct<K: View<V = Seq<char>>, T>(entries: Seq<(K, T)>) -> bool {
    forall|i: int, j: int|
        0 <= i < entries.len() && 0 <= j < entries.len() && i != j ==> entries[i].0@ != entries[j].0@
}

/// `key_position` finds the first entry with the key, and `-1` exactly when
/// there is none.
pub proof fn lemma_key_position<K: View<V = Seq<char>>, T>(entries: Seq<(K, T)>, key: Seq<char>)
    ensures
        key_position(entries, key) == -1 <==> forall|i: int|
            0 <= i < entries.len() ==> entries[i].0@ != key,
        key_position(entries, key) != -1 ==> {
            &&& 0 <= key_position(entries, key) < entries.len()
            &&& entries[key_position(entries, key)].0@ == key
            &&& forall|i: int| 0 <= i < key_position(entries, key) ==> entries[i].0@ != key
        },
    decreases entries.len(),
{
    if entries.len() > 0 {
        let front = entries.drop_last();
        lemma_key_position(front, key);
        assert forall|i: int| 0 <= i < front.len() implies front[i] == entries[i] by {}
    }
}

/// A table keyed by id holds no key twice.
pub proof fn lemma_keyed_distinct<K: View<V = Seq<char>>, T>(entries: Seq<(K, T)>)
    ensures
        keys_distinct(keyed_entries(entries)),
    decreases entries.len(),
{
    if entries.len() > 0 {
        let d = keyed_entries(entries.drop_last());
        let e = entries.last();
        lemma_keyed_distinct(entries.drop_last());
        lemma_key_position(d, e.0@);
    }
}

/// The position of the first entry of `entries` keyed by `key`.
fn position_of_key(entries: &Vec<(DefId, String)>, key: &DefId) -> (r: Option<usize>)
    ensures
        r is None ==> key_position(entries@, key@) == -1,
        r matches Some(i) ==> i == key_position(entries@, key@) && i < entries@.len(),
{
    proof {
        lemma_key_position(entries@, key@);
    }
    let mut i: usize = 0;
    while i < entries.len()
        invariant
            i <= entries@.len(),
            forall|j: int| 0 <= j < i ==> entries@[j].0@ != key@,
            key_position(entries@, key@) == -1 <==> forall|j: int|
                0 <= j < entries@.len() ==> entries@[j].0@ != key@,
            key_position(entries@, key@) != -1 ==> {
                &&& 0 <= key_position(entries@, key@) < entries@.len()
                &&& entries@[key_position(entries@, key@)].0@ == key@
                &&& forall|j: int|
                    0 <= j < key_position(entries@, key@) ==> entries@[j].0@ != key@
            },
        decreases entries@.len() - i,
    {
        if entries[i].0 == *key {
            return Some(i);
        }
        i = i + 1;
    }
    None
}

/// The entries as a table keyed by id holds them: a key given twice keeps
/// its first place and takes the entry given last.
pub fn keyed_by_id(entries: Vec<(DefId, String)>) -> (r: Vec<(DefId, String)>)
    ensures
        r@ == keyed_entries(entries@),
        keys_distinct(r@),
{
    let ghost orig = entries@;
    let mut rest = entries;
    let mut out: Vec<(DefId, String)> = Vec::new();
    let ghost mut k: int = 0;
    proof {
        assert(orig.take(0) =~= Seq::<(DefId, String)>::empty());
        assert(orig.skip(0) =~= orig);
    }
    while rest.len() > 0
        invariant
            0 <= k <= orig.len(),
            rest@ == orig.skip(k),
            out@ == keyed_entries(orig.take(k)),
        decreases rest@.len(),
    {
        let e = rest.remove(0);
        proof {
            assert(orig.take(k + 1).drop_last() =~= orig.take(k));
            assert(orig.take(k + 1).last() == e);
            assert(rest@ =~= orig.skip(k + 1));
        }
        match position_of_key(&out, &e.0) {
            Some(i) => {
                out.set(i, e);
            },
            None => {
                out.push(e);
            },
        }
        proof {
            k = k + 1;
        }
    }
    proof {
        assert(orig.take(k) =~= orig);
        lemma_keyed_distinct(orig);
    }
    out
}

/// The position of the first entry of `entries` keyed by `key`.
fn position_of_text(entries: &Vec<(String, String)>, key: &String) -> (r: Option<usize>)
    ensures
        r is None ==> key_position(entries@, key@) == -1,
        r matches Some(i) ==> i == key_position(entries@, key@) && i < entries@.len(),
{
    proof {
        lemma_key_position(entries@, key@);
    }
    let mut i: usize = 0;
    while i < entries.len()
        invariant
            i <= entries@.len(),
            forall|j: int| 0 <= j < i ==> entries@[j].0@ != key@,
            key_position(entries@, key@) == -1 <==> forall|j: int|
                0 <= j < entries@.len() ==> entries@[j].0@ != key@,
            key_position(entries@, key@) != -1 ==> {
                &&& 0 <= key_position(entries@, key@) < entries@.len()
                &&& entries@[key_position(entries@, key@)].0@ == key@
                &&& forall|j: int|
                    0 <= j < key_position(entries@, key@) ==> entries@[j].0@ != key@
            },
        decreases entries@.len() - i,
    {
        if entries[i].0 == *key {
            return Some(i);
        }
        i = i + 1;
    }
    None
}

/// The entries as a table keyed by text holds them: a key given twice
/// keeps its first place and takes the entry given last.
pub fn keyed_by_text(entries: Vec<(String, String)>) -> (r: Vec<(String, String)>)
    ensures
        r@ == keyed_entries(entries@),
        keys_distinct(r@),
{
    let ghost orig = entries@;
    let mut rest = entries;
    let mut out: Vec<(String, String)> = Vec::new();
    let ghost mut k: int = 0;
    proof {
        assert(orig.take(0) =~= Seq::<(String, String)>::empty());
        assert(orig.skip(0) =~= orig);
    }
    while rest.len() > 0
        invariant
            0 <= k <= orig.len(),
            rest@ == orig.skip(k),
            out@ == keyed_entries(orig.take(k)),
        decreases rest@.len(),
    {
        let e = rest.remove(0);
        proof {
            assert(orig.take(k + 1).drop_last() =~= orig.take(k));
            assert(orig.take(k + 1).last() == e);
            assert(rest@ =~= orig.skip(k + 1));
        }
        match position_of_text(&out, &e.0) {
            Some(i) => {
                out.set(i, e);
            },
            None => {
                out.push(e);
            },
        }
        proof {
            k = k + 1;
        }
    }
    proof {
        assert(orig.take(k) =~= orig);
        lemma_keyed_distinct(orig);
    }
    out
}

} // verus!
