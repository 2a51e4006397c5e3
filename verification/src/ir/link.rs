//! The names by which the linker knows functions.

use crate::common::text::{digit_char, group_text, nat_text, owned, usize_to_text};
use vstd::prelude::*;
use vstd::string::*;
use vstd::utf8::encode_utf8;

verus! {

broadcast use group_text;

/// A separator `::` starts at position `i`.
pub open spec fn separates(s: Seq<char>, i: int) -> bool {
    0 <= i && i + 1 < s.len() && s[i] == ':' && s[i + 1] == ':'
}

/// The first separator at or behind position `i`.
pub open spec fn next_separator(s: Seq<char>, i: nat) -> Option<nat>
    decreases s.len() - i,
{
    if i + 1 >= s.len() {
        None
    } else if separates(s, i as int) {
        Some(i)
    } else {
        next_separator(s, i + 1)
    }
}

/// The last separator before position `i`.
pub open spec fn previous_separator(s: Seq<char>, i: nat) -> Option<nat>
    decreases i,
{
    if i == 0 {
        None
    } else if separates(s, i - 1) {
        Some((i - 1) as nat)
    } else {
        previous_separator(s, (i - 1) as nat)
    }
}

/// What stands behind the last separator; the whole name where there is none.
pub open spec fn last_segment(s: Seq<char>) -> Seq<char> {
    match previous_separator(s, s.len()) {
        Some(i) => s.subrange((i + 2) as int, s.len() as int),
        None => s,
    }
}

/// The segments of the part of a name from position `i` on.
pub open spec fn segments(s: Seq<char>, i: nat) -> Seq<Seq<char>>
    decreases s.len() - i,
    when i <= s.len()
    via segments_end
{
    match next_separator(s, i) {
        Some(j) => seq![s.subrange(i as int, j as int)] + segments(s, j + 2),
        None => seq![s.subrange(i as int, s.len() as int)],
    }
}

#[via_fn]
proof fn segments_end(s: Seq<char>, i: nat) {
    lemma_next_separator(s, i);
}

/// A segment behind its length in bytes.
pub open spec fn measured(segment: Seq<char>) -> Seq<char> {
    nat_text(encode_utf8(segment).len()) + segment
}

/// The segments from position `k` on, each behind its length, and the end.
pub open spec fn encoded(segs: Seq<Seq<char>>, k: nat) -> Seq<char>
    decreases segs.len() - k,
{
    if k >= segs.len() {
        "E"@
    } else {
        measured(segs[k as int]) + encoded(segs, k + 1)
    }
}

/// The name that the linker sees for `name`, by a table of such names; a name
/// that is not in the table stands for itself.
pub open spec fn linked(links: Map<Seq<char>, Seq<char>>, name: Seq<char>) -> Seq<char> {
    if links.contains_key(name) {
        links[name]
    } else {
        name
    }
}

/// The name that the linker sees: for what comes from outside the last
/// segment, for a name without separators the name itself, and else the
/// segments with their lengths.
pub open spec fn link_name(source_name: Seq<char>, is_external: bool) -> Seq<char> {
    if is_external {
        last_segment(source_name)
    } else if next_separator(source_name, 0) is Some {
        "_TN"@ + encoded(segments(source_name, 0), 0)
    } else {
        source_name
    }
}

proof fn lemma_next_separator(s: Seq<char>, i: nat)
    ensures
        match next_separator(s, i) {
            Some(j) => i <= j && separates(s, j as int) && forall|k: int|
                i <= k < j ==> !separates(s, k),
            None => forall|k: int| i <= k ==> !separates(s, k),
        },
    decreases s.len() - i,
{
    if i + 1 < s.len() && !separates(s, i as int) {
        lemma_next_separator(s, i + 1);
    }
}

fn find_separator(s: &str, from: usize, len: usize) -> (r: Option<usize>)
    requires
        from <= len,
        len == s@.len(),
    ensures
        match r {
            Some(j) => next_separator(s@, from as nat) == Some(j as nat) && from <= j && j + 2
                <= len,
            None => next_separator(s@, from as nat) is None,
        },
{
    let mut i: usize = from;
    while len - i > 1
        invariant
            from <= i <= len,
            len == s@.len(),
            next_separator(s@, from as nat) == next_separator(s@, i as nat),
        decreases len - i,
    {
        if s.get_char(i) == ':' && s.get_char(i + 1) == ':' {
            return Some(i);
        }
        i = i + 1;
    }
    None
}

fn find_last_separator(s: &str, len: usize) -> (r: Option<usize>)
    requires
        len == s@.len(),
    ensures
        match r {
            Some(j) => previous_separator(s@, len as nat) == Some(j as nat) && j + 2 <= len,
            None => previous_separator(s@, len as nat) is None,
        },
{
    let mut i: usize = len;
    while i > 0
        invariant
            i <= len,
            len == s@.len(),
            previous_separator(s@, len as nat) == previous_separator(s@, i as nat),
        decreases i,
    {
        if len - i >= 1 && s.get_char(i - 1) == ':' && s.get_char(i) == ':' {
            return Some(i - 1);
        }
        i = i - 1;
    }
    None
}

/// The name by which the linker knows a function.
pub fn compute_link_name(source_name: &str, is_external: bool) -> (name: String)
    ensures
        name@ == link_name(source_name@, is_external),
{
    let len: usize = source_name.unicode_len();
    if is_external {
        return match find_last_separator(source_name, len) {
            Some(i) => owned(source_name.substring_char(i + 2, len)),
            None => owned(source_name),
        };
    }
    if find_separator(source_name, 0, len).is_none() {
        return owned(source_name);
    }
    let ghost all = segments(source_name@, 0);
    let mut mangled = owned("_TN");
    let mut from: usize = 0;
    let mut last = false;
    let ghost mut k: nat = 0;
    proof {
        assert(all.skip(0) =~= all);
        lemma_segments_some(source_name@, 0);
    }
    while !last
        invariant
            from <= len,
            len == source_name@.len(),
            all == segments(source_name@, 0),
            k <= all.len(),
            last ==> k == all.len(),
            !last ==> k < all.len() && all.skip(k as int) == segments(source_name@, from as nat),
            "_TN"@ + encoded(all, 0) == mangled@ + encoded(all, k),
        decreases all.len() - k,
    {
        let ghost rest = all.skip(k as int);
        let end: usize = match find_separator(source_name, from, len) {
            Some(j) => j,
            None => {
                last = true;
                len
            },
        };
        let segment = source_name.substring_char(from, end);
        proof {
            lemma_next_separator(source_name@, from as nat);
            assert(rest[0] == all[k as int]);
            assert(segment@ == rest[0]);
            assert(encoded(all, k) == measured(segment@) + encoded(all, k + 1));
        }
        let ghost before = mangled@;
        mangled.append(usize_to_text(segment.as_bytes().len()).as_str());
        mangled.append(segment);
        proof {
            assert(mangled@ =~= before + measured(segment@));
            k = k + 1;
            assert(all.skip(k as int) =~= rest.skip(1));
            if !last {
                assert(rest.skip(1) =~= segments(source_name@, (end + 2) as nat));
                lemma_segments_some(source_name@, (end + 2) as nat);
            } else {
                assert(rest.len() == 1);
            }
        }
        if !last {
            from = end + 2;
        }
    }
    mangled.append("E");
    mangled
}

/// The text of a number consists of digits.
proof fn lemma_digits(n: nat)
    ensures
        nat_text(n).len() > 0,
        forall|i: int| 0 <= i < nat_text(n).len() ==> is_digit(#[trigger] nat_text(n)[i]),
    decreases n,
{
    if n >= 10 {
        lemma_digits(n / 10);
    }
}

/// A decimal digit.
pub open spec fn is_digit(c: char) -> bool {
    '0' <= c <= '9'
}

proof fn lemma_digit_injective(a: nat, b: nat)
    requires
        a < 10,
        b < 10,
        digit_char(a) == digit_char(b),
    ensures
        a == b,
{
}

/// Different numbers have different texts.
proof fn lemma_number_texts(a: nat, b: nat)
    requires
        nat_text(a) == nat_text(b),
    ensures
        a == b,
    decreases a,
{
    lemma_digits(a / 10);
    lemma_digits(b / 10);
    let t = nat_text(a);
    if a >= 10 && b >= 10 {
        assert(t.drop_last() =~= nat_text(a / 10));
        assert(nat_text(b).drop_last() =~= nat_text(b / 10));
        lemma_number_texts(a / 10, b / 10);
        assert(t.last() == digit_char(a % 10));
        assert(nat_text(b).last() == digit_char(b % 10));
        lemma_digit_injective(a % 10, b % 10);
    } else if a >= 10 {
        assert(nat_text(b).len() == 1);
        assert(t.len() >= 2);
    } else if b >= 10 {
        assert(t.len() == 1);
        assert(nat_text(b).len() >= 2);
    } else {
        assert(t[0] == digit_char(a));
        assert(nat_text(b)[0] == digit_char(b));
        lemma_digit_injective(a, b);
    }
}

/// A name can be told from what stands before it: it does not start with a
/// digit.
pub open spec fn plain_segment(s: Seq<char>) -> bool {
    s.len() > 0 && !is_digit(s[0])
}

proof fn lemma_longer_bytes(a: Seq<char>, k: int)
    requires
        0 <= k <= a.len(),
    ensures
        encode_utf8(a.take(k)).len() <= encode_utf8(a).len(),
        k < a.len() ==> encode_utf8(a.take(k)).len() < encode_utf8(a).len(),
    decreases a.len(),
{
    if k > 0 {
        lemma_longer_bytes(a.drop_first(), k - 1);
        assert(a.take(k).drop_first() =~= a.drop_first().take(k - 1));
    } else {
        assert(a.take(0) =~= Seq::empty());
    }
}

proof fn lemma_same_segment(a: Seq<char>, b: Seq<char>, x: Seq<char>, y: Seq<char>)
    requires
        plain_segment(a),
        plain_segment(b),
        measured(a) + x == measured(b) + y,
    ensures
        a == b,
        x == y,
{
    let m = encode_utf8(a).len();
    let n = encode_utf8(b).len();
    let p = nat_text(m);
    let q = nat_text(n);
    let whole = measured(a) + x;
    lemma_digits(m);
    lemma_digits(n);
    if p.len() < q.len() {
        assert(whole[p.len() as int] == a[0]);
        assert((measured(b) + y)[p.len() as int] == q[p.len() as int]);
    }
    if q.len() < p.len() {
        assert((measured(b) + y)[q.len() as int] == b[0]);
        assert(whole[q.len() as int] == p[q.len() as int]);
    }
    assert(p =~= q) by {
        assert(whole.take(p.len() as int) =~= p);
        assert((measured(b) + y).take(q.len() as int) =~= q);
    }
    lemma_number_texts(m, n);
    let rest = whole.skip(p.len() as int);
    assert(rest =~= a + x);
    assert(rest =~= b + y) by {
        assert((measured(b) + y).skip(q.len() as int) =~= b + y);
    }
    if a.len() < b.len() {
        assert(b.take(a.len() as int) =~= a) by {
            assert forall|i: int| 0 <= i < a.len() implies b[i] == a[i] by {
                assert((b + y)[i] == (a + x)[i]);
            }
        }
        lemma_longer_bytes(b, a.len() as int);
    }
    if b.len() < a.len() {
        assert(a.take(b.len() as int) =~= b) by {
            assert forall|i: int| 0 <= i < b.len() implies a[i] == b[i] by {
                assert((a + x)[i] == (b + y)[i]);
            }
        }
        lemma_longer_bytes(a, b.len() as int);
    }
    assert(a =~= b) by {
        assert((a + x).take(a.len() as int) =~= a);
        assert((b + y).take(b.len() as int) =~= b);
    }
    assert(x =~= y) by {
        assert((a + x).skip(a.len() as int) =~= x);
        assert((b + y).skip(b.len() as int) =~= y);
    }
}

proof fn lemma_same_segments(a: Seq<Seq<char>>, b: Seq<Seq<char>>, k: nat)
    requires
        k <= a.len(),
        k <= b.len(),
        forall|i: int| 0 <= i < a.len() ==> plain_segment(#[trigger] a[i]),
        forall|i: int| 0 <= i < b.len() ==> plain_segment(#[trigger] b[i]),
        encoded(a, k) == encoded(b, k),
    ensures
        a.len() == b.len(),
        forall|i: int| k <= i < a.len() ==> a[i] == b[i],
    decreases a.len() - k,
{
    reveal_strlit("E");
    if k < a.len() {
        lemma_digits(encode_utf8(a[k as int]).len());
        assert(encoded(a, k)[0] == nat_text(encode_utf8(a[k as int]).len())[0]);
    }
    if k < b.len() {
        lemma_digits(encode_utf8(b[k as int]).len());
        assert(encoded(b, k)[0] == nat_text(encode_utf8(b[k as int]).len())[0]);
    }
    if k < a.len() && k < b.len() {
        lemma_same_segment(a[k as int], b[k as int], encoded(a, k + 1), encoded(b, k + 1));
        lemma_same_segments(a, b, k + 1);
    }
}

/// The segments determine the name.
proof fn lemma_joined(a: Seq<char>, b: Seq<char>, i: nat, j: nat)
    requires
        i <= a.len(),
        j <= b.len(),
        segments(a, i) == segments(b, j),
    ensures
        a.skip(i as int) == b.skip(j as int),
    decreases a.len() - i,
{
    lemma_next_separator(a, i);
    lemma_next_separator(b, j);
    let x = segments(a, i);
    let y = segments(b, j);
    lemma_segments_some(a, i);
    lemma_segments_some(b, j);
    assert(x[0] == y[0]);
    match next_separator(a, i) {
        None => {
            assert(x.len() == 1);
            if let Some(q) = next_separator(b, j) {
                lemma_segments_some(b, q + 2);
            }
            assert(a.skip(i as int) =~= x[0]);
            assert(b.skip(j as int) =~= y[0]);
        },
        Some(p) => {
            lemma_segments_some(a, p + 2);
            match next_separator(b, j) {
                None => {
                    assert(y.len() == 1);
                },
                Some(q) => {
                    assert(x.skip(1) =~= segments(a, p + 2));
                    assert(y.skip(1) =~= segments(b, q + 2));
                    lemma_joined(a, b, p + 2, q + 2);
                    assert(a.subrange(p as int, p as int + 2) =~= b.subrange(q as int, q as int + 2));
                    assert(a.skip(i as int) =~= x[0] + a.subrange(p as int, p as int + 2) + a.skip(p as int + 2));
                    assert(b.skip(j as int) =~= y[0] + b.subrange(q as int, q as int + 2) + b.skip(q as int + 2));
                },
            }
        },
    }
}

proof fn lemma_segments_some(s: Seq<char>, i: nat)
    requires
        i <= s.len(),
    ensures
        segments(s, i).len() > 0,
{
    lemma_next_separator(s, i);
}

/// Different qualified names have different names at the linker, where no
/// segment is empty or starts with a digit.
pub proof fn lemma_link_names_differ(a: Seq<char>, b: Seq<char>)
    requires
        next_separator(a, 0) is Some,
        next_separator(b, 0) is Some,
        forall|i: int| 0 <= i < segments(a, 0).len() ==> plain_segment(#[trigger] segments(a, 0)[i]),
        forall|i: int| 0 <= i < segments(b, 0).len() ==> plain_segment(#[trigger] segments(b, 0)[i]),
        link_name(a, false) == link_name(b, false),
    ensures
        a == b,
{
    reveal_strlit("_TN");
    let x = encoded(segments(a, 0), 0);
    let y = encoded(segments(b, 0), 0);
    assert(link_name(a, false).skip(3) =~= x);
    assert(link_name(b, false).skip(3) =~= y);
    lemma_same_segments(segments(a, 0), segments(b, 0), 0);
    assert(segments(a, 0) =~= segments(b, 0));
    lemma_joined(a, b, 0, 0);
    assert(a.skip(0) =~= a);
    assert(b.skip(0) =~= b);
}

/// A name of the program that is mangled without ambiguity: no segment of a
/// qualified name is empty or starts with a digit, and a name without
/// separators does not start as a mangled one does.
pub open spec fn plain_name(s: Seq<char>) -> bool {
    if next_separator(s, 0) is Some {
        forall|i: int|
            0 <= i < segments(s, 0).len() ==> plain_segment(#[trigger] segments(s, 0)[i])
    } else {
        !"_TN"@.is_prefix_of(s)
    }
}

/// Different names of functions of a program become different symbols.
pub proof fn lemma_symbols_differ(a: Seq<char>, b: Seq<char>)
    requires
        plain_name(a),
        plain_name(b),
        link_name(a, false) == link_name(b, false),
    ensures
        a == b,
{
    let start = "_TN"@;
    if next_separator(a, 0) is Some && next_separator(b, 0) is Some {
        lemma_link_names_differ(a, b);
    } else if next_separator(a, 0) is Some {
        assert(start =~= link_name(a, false).subrange(0, start.len() as int));
        assert(start.is_prefix_of(b));
    } else if next_separator(b, 0) is Some {
        assert(start =~= link_name(b, false).subrange(0, start.len() as int));
        assert(start.is_prefix_of(a));
    }
}

/// An imported function is known to the linker by its own name, without the
/// module.
pub proof fn lemma_imported_link_name(module: Seq<char>, name: Seq<char>)
    requires
        forall|i: int| 0 <= i < name.len() ==> name[i] != ':',
    ensures
        link_name(module + "::"@ + name, true) == name,
{
    reveal_strlit("::");
    let s = module + "::"@ + name;
    let m = module.len();
    assert(separates(s, m as int));
    lemma_previous_stays(s, m, s.len());
    assert(s.subrange(m as int + 2, s.len() as int) =~= name);
}

proof fn lemma_previous_stays(s: Seq<char>, m: nat, i: nat)
    requires
        separates(s, m as int),
        m < i <= s.len(),
        forall|k: int| m + 2 <= k < s.len() ==> s[k] != ':',
    ensures
        previous_separator(s, i) == Some(m),
    decreases i,
{
    if i - 1 > m {
        assert(!separates(s, i - 1)) by {
            if i - 1 == m + 1 && separates(s, i - 1) {
                assert(s[m as int + 2] == ':');
            }
        }
        lemma_previous_stays(s, m, (i - 1) as nat);
    }
}

} // verus!
