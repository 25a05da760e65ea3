//! Byte-string search over buffer text and symbol names.

use vstd::prelude::*;

verus! {

/// `needle` stands in `hay` at offset `i`.
pub open spec fn occurs_at(hay: Seq<u8>, i: int, needle: Seq<u8>) -> bool {
    0 <= i && i + needle.len() <= hay.len() && hay.subrange(i, i + needle.len()) == needle
}

/// The first offset at or after `from` where `needle` stands in `hay` and ends
/// at or before `to`.
pub open spec fn find_from(hay: Seq<u8>, from: int, to: int, needle: Seq<u8>) -> Option<int>
    decreases to - from + 1,
{
    if from < 0 || from + needle.len() > to {
        None
    } else if occurs_at(hay, from, needle) {
        Some(from)
    } else {
        find_from(hay, from + 1, to, needle)
    }
}

pub open spec fn offset_of(r: Option<usize>) -> Option<int> {
    match r {
        Some(i) => Some(i as int),
        None => None,
    }
}

/// The length in bytes of the whitespace character that starts at offset
/// `i` of UTF-8 text `s`, or 0 where none does. Whitespace is what Unicode
/// calls White_Space: tab to carriage return, space, U+0085, U+00A0, U+1680,
/// U+2000 to U+200A, U+2028, U+2029, U+202F, U+205F and U+3000.
pub open spec fn space_len(s: Seq<u8>, i: int) -> int {
    if i < 0 || i >= s.len() {
        0
    } else if s[i] == 32 || (9 <= s[i] && s[i] <= 13) {
        1
    } else if s[i] == 0xC2 && i + 1 < s.len() && (s[i + 1] == 0x85 || s[i + 1] == 0xA0) {
        2
    } else if i + 2 < s.len() && ((s[i] == 0xE1 && s[i + 1] == 0x9A && s[i + 2] == 0x80) || (s[i] == 0xE2
        && s[i + 1] == 0x80 && ((0x80 <= s[i + 2] && s[i + 2] <= 0x8A) || s[i + 2] == 0xA8 || s[i + 2]
        == 0xA9 || s[i + 2] == 0xAF)) || (s[i] == 0xE2 && s[i + 1] == 0x81 && s[i + 2] == 0x9F) || (s[i]
        == 0xE3 && s[i + 1] == 0x80 && s[i + 2] == 0x80)) {
        3
    } else {
        0
    }
}

/// Finds the length of the whitespace character at offset `i`, or 0.
pub fn space_len_at(s: &Vec<u8>, i: usize) -> (r: usize)
    requires
        i < s@.len(),
    ensures
        r as int == space_len(s@, i as int),
{
    let n = s.len();
    let b = s[i];
    if b == 32 || (9 <= b && b <= 13) {
        1
    } else if b == 0xC2 && n - i > 1 && (s[i + 1] == 0x85 || s[i + 1] == 0xA0) {
        2
    } else if n - i > 2 {
        let b1 = s[i + 1];
        let b2 = s[i + 2];
        if (b == 0xE1 && b1 == 0x9A && b2 == 0x80) || (b == 0xE2 && b1 == 0x80 && ((0x80 <= b2 && b2 <= 0x8A)
            || b2 == 0xA8 || b2 == 0xA9 || b2 == 0xAF)) || (b == 0xE2 && b1 == 0x81 && b2 == 0x9F) || (b
            == 0xE3 && b1 == 0x80 && b2 == 0x80) {
            3
        } else {
            0
        }
    } else {
        0
    }
}

/// The words of `s` from offset `i` on, as (start, end) offsets, given that a
/// word began at `start` (if any) and has not ended before `i`.
pub open spec fn words_scan(s: Seq<u8>, i: int, start: Option<int>) -> Seq<(usize, usize)>
    decreases s.len() - i,
{
    if i >= s.len() {
        match start {
            Some(st) => seq![(st as usize, s.len() as usize)],
            None => seq![],
        }
    } else if space_len(s, i) > 0 {
        match start {
            Some(st) => seq![(st as usize, i as usize)] + words_scan(s, i + space_len(s, i), None),
            None => words_scan(s, i + space_len(s, i), None),
        }
    } else {
        match start {
            Some(st) => words_scan(s, i + 1, Some(st)),
            None => words_scan(s, i + 1, Some(i)),
        }
    }
}

/// The words of `s`: its maximal runs without whitespace, in order.
pub open spec fn words(s: Seq<u8>) -> Seq<(usize, usize)> {
    words_scan(s, 0, None)
}

fn matches_at(hay: &Vec<u8>, i: usize, needle: &Vec<u8>, ns: usize, ne: usize) -> (r: bool)
    requires
        ns <= ne <= needle@.len(),
        i + (ne - ns) <= hay@.len(),
    ensures
        r == occurs_at(hay@, i as int, needle@.subrange(ns as int, ne as int)),
{
    let n = ne - ns;
    let ghost nd = needle@.subrange(ns as int, ne as int);
    let hay_len = hay.len();
    let mut k: usize = 0;
    while k < n
        invariant
            hay_len == hay@.len(),
            n == ne - ns,
            ns <= ne <= needle@.len(),
            i + n <= hay@.len(),
            nd == needle@.subrange(ns as int, ne as int),
            k <= n,
            forall|t: int| 0 <= t < k ==> #[trigger] nd[t] == hay@[i + t],
        decreases n - k,
    {
        if hay[i + k] != needle[ns + k] {
            assert(hay@.subrange(i as int, i + n)[k as int] != nd[k as int]);
            return false;
        }
        k = k + 1;
    }
    assert(hay@.subrange(i as int, i + n) =~= nd);
    true
}

/// Finds the first place at or after `from` where `needle[ns..ne]` stands in
/// `hay`, ending at or before `to`.
pub fn find_bytes(hay: &Vec<u8>, from: usize, to: usize, needle: &Vec<u8>, ns: usize, ne: usize) -> (r:
    Option<usize>)
    requires
        ns <= ne <= needle@.len(),
        to <= hay@.len(),
    ensures
        offset_of(r) == find_from(hay@, from as int, to as int, needle@.subrange(ns as int, ne as int)),
{
    let n = ne - ns;
    let ghost nd = needle@.subrange(ns as int, ne as int);
    if n > to || from > to - n {
        return None;
    }
    let last = to - n;
    let mut i = from;
    loop
        invariant
            n == ne - ns,
            nd == needle@.subrange(ns as int, ne as int),
            ns <= ne <= needle@.len(),
            to <= hay@.len(),
            n <= to,
            last == to - n,
            from <= i <= last,
            find_from(hay@, from as int, to as int, nd) == find_from(hay@, i as int, to as int, nd),
        decreases last - i,
    {
        if matches_at(hay, i, needle, ns, ne) {
            return Some(i);
        }
        if i == last {
            assert(find_from(hay@, i + 1, to as int, nd) == None::<int>);
            return None;
        }
        i = i + 1;
    }
}

/// Splits UTF-8 text `s` into its words, the maximal runs without Unicode
/// whitespace, as (start, end) byte offsets.
pub fn split_words(s: &Vec<u8>) -> (r: Vec<(usize, usize)>)
    ensures
        r@ == words(s@),
{
    let mut out: Vec<(usize, usize)> = Vec::new();
    let mut start: Option<usize> = None;
    let mut i: usize = 0;
    while i < s.len()
        invariant
            i <= s@.len(),
            out@ + words_scan(s@, i as int, offset_of(start)) == words(s@),
            match start {
                Some(st) => st < i,
                None => true,
            },
        decreases s@.len() - i,
    {
        let w = space_len_at(s, i);
        if w > 0 {
            match start {
                Some(st) => {
                    out.push((st, i));
                    assert(out@ + words_scan(s@, i + w, None) =~= words(s@));
                },
                None => {},
            }
            start = None;
            i = i + w;
        } else {
            match start {
                Some(_) => {},
                None => {
                    start = Some(i);
                },
            }
            i = i + 1;
        }
    }
    match start {
        Some(st) => {
            out.push((st, i));
            assert(out@ =~= words(s@));
        },
        None => {
            assert(out@ =~= words(s@));
        },
    }
    out
}

/// Whether two byte strings are equal.
pub fn bytes_equal(a: &Vec<u8>, b: &Vec<u8>) -> (r: bool)
    ensures
        r == (a@ == b@),
{
    if a.len() != b.len() {
        return false;
    }
    let mut k: usize = 0;
    while k < a.len()
        invariant
            a@.len() == b@.len(),
            k <= a@.len(),
            forall|t: int| 0 <= t < k ==> #[trigger] a@[t] == b@[t],
        decreases a@.len() - k,
    {
        if a[k] != b[k] {
            return false;
        }
        k = k + 1;
    }
    assert(a@ =~= b@);
    true
}

} // verus!
