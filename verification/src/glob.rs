//! Segment-level shell-glob matching.
//!
//! A pattern segment is a byte string in which `*` matches any run of bytes,
//! `?` matches exactly one byte, `[...]` matches one byte of the class
//! (`[!...]` one byte outside it, `lo-hi` an inclusive range), and every
//! other byte matches itself.  A list of pattern segments is matched against
//! a list of path segments, with the special segment `**` spanning zero or
//! more path segments.
use vstd::prelude::*;

verus! {

/// Index of the first occurrence of `b` in `s` at or after position `i`,
/// or -1 when there is none.
pub open spec fn find_byte(s: Seq<u8>, b: u8, i: int) -> int
    decreases s.len() - i,
{
    if i < 0 || i >= s.len() {
        -1
    } else if s[i] == b {
        i
    } else {
        find_byte(s, b, i + 1)
    }
}

/// `find_byte` returns -1 or an index of `b` within bounds, with no earlier
/// occurrence at or after `i`.
pub proof fn lemma_find_byte_range(s: Seq<u8>, b: u8, i: int)
    requires
        0 <= i,
    ensures
        find_byte(s, b, i) == -1 ==> forall|j: int| i <= j < s.len() ==> s[j] != b,
        find_byte(s, b, i) != -1 ==> i <= find_byte(s, b, i) < s.len() && s[find_byte(s, b, i)]
            == b && forall|j: int| i <= j < find_byte(s, b, i) ==> s[j] != b,
    decreases s.len() - i,
{
    if i < s.len() && s[i] != b {
        lemma_find_byte_range(s, b, i + 1);
    }
}

/// Shifting the start of the search is the same as searching a suffix.
pub proof fn lemma_find_byte_skip(s: Seq<u8>, b: u8, k: int, i: int)
    requires
        0 <= k <= s.len(),
        0 <= i,
    ensures
        find_byte(s.skip(k), b, i) == if find_byte(s, b, k + i) == -1 {
            -1
        } else {
            find_byte(s, b, k + i) - k
        },
    decreases s.len() - k - i,
{
    if k + i < s.len() && s[k + i] != b {
        lemma_find_byte_skip(s, b, k, i + 1);
    }
}

/// Whether byte `c` is matched by the class body `content` (the bytes
/// strictly between the brackets, after any leading `!`): a plain byte
/// matches itself, and `lo-hi` matches the inclusive byte range.
pub open spec fn class_content_matches(content: Seq<u8>, c: u8) -> bool
    decreases content.len(),
{
    if content.len() == 0 {
        false
    } else if content.len() >= 3 && content[1] == 45 {
        (content[0] <= c && c <= content[2]) || class_content_matches(content.skip(3), c)
    } else {
        c == content[0] || class_content_matches(content.skip(1), c)
    }
}

/// One character class standing at the head of `pat`: `pat[0]` is `[` and
/// `pat[close]` the closing `]`; a leading `!` complements the class body.
pub open spec fn class_step_matches(pat: Seq<u8>, close: int, c: u8) -> bool {
    if close > 1 && pat[1] == 33 {
        !class_content_matches(pat.subrange(2, close), c)
    } else {
        class_content_matches(pat.subrange(1, close), c)
    }
}

/// Shell-glob matching of one pattern segment against one path segment.
/// A `[` without a closing `]` matches nothing.
pub open spec fn seg_match(pat: Seq<u8>, s: Seq<u8>) -> bool
    decreases pat.len(), s.len(),
{
    if pat.len() == 0 {
        s.len() == 0
    } else if pat[0] == 42 {
        seg_match(pat.skip(1), s) || (s.len() > 0 && seg_match(pat, s.skip(1)))
    } else if pat[0] == 63 {
        s.len() > 0 && seg_match(pat.skip(1), s.skip(1))
    } else if pat[0] == 91 {
        let close = find_byte(pat, 93, 1);
        if close < 0 {
            false
        } else {
            proof {
                lemma_find_byte_range(pat, 93, 1);
            }
            s.len() > 0 && class_step_matches(pat, close, s[0]) && seg_match(
                pat.skip(close + 1),
                s.skip(1),
            )
        }
    } else {
        s.len() > 0 && s[0] == pat[0] && seg_match(pat.skip(1), s.skip(1))
    }
}

/// The pattern segment that spans path segments: exactly `**`.
pub open spec fn is_double_star(seg: Seq<u8>) -> bool {
    seg.len() == 2 && seg[0] == 42 && seg[1] == 42
}

/// Matching a list of pattern segments against a list of path segments.
/// Every path segment must be consumed; `**` consumes zero or more of them.
pub open spec fn segs_match(pats: Seq<Seq<u8>>, path: Seq<Seq<u8>>) -> bool
    decreases pats.len(), path.len(),
{
    if pats.len() == 0 {
        path.len() == 0
    } else if is_double_star(pats[0]) {
        segs_match(pats.skip(1), path) || (path.len() > 0 && segs_match(pats, path.skip(1)))
    } else {
        path.len() > 0 && seg_match(pats[0], path[0]) && segs_match(pats.skip(1), path.skip(1))
    }
}

/// Every class opened by `[` in `pat` is closed by a `]`.
pub open spec fn classes_ok(pat: Seq<u8>) -> bool
    decreases pat.len(),
{
    if pat.len() == 0 {
        true
    } else if pat[0] == 91 {
        let close = find_byte(pat, 93, 1);
        if close < 0 {
            false
        } else {
            proof {
                lemma_find_byte_range(pat, 93, 1);
            }
            classes_ok(pat.skip(close + 1))
        }
    } else {
        classes_ok(pat.skip(1))
    }
}

/// The views of a list of byte vectors.
pub open spec fn views_of(v: Seq<Vec<u8>>) -> Seq<Seq<u8>> {
    v.map_values(|x: Vec<u8>| x@)
}

pub(crate) fn find_byte_at(s: &Vec<u8>, b: u8, i: usize) -> (r: Option<usize>)
    ensures
        match r {
            Some(c) => find_byte(s@, b, i as int) == c as int,
            None => find_byte(s@, b, i as int) == -1,
        },
    decreases s@.len() - i,
{
    if i >= s.len() {
        None
    } else if s[i] == b {
        Some(i)
    } else {
        find_byte_at(s, b, i + 1)
    }
}

fn class_content_at(pat: &Vec<u8>, lo: usize, hi: usize, c: u8) -> (r: bool)
    requires
        lo <= hi <= pat@.len(),
    ensures
        r == class_content_matches(pat@.subrange(lo as int, hi as int), c),
    decreases hi - lo,
{
    let ghost content = pat@.subrange(lo as int, hi as int);
    if lo == hi {
        false
    } else if hi - lo >= 3 && pat[lo + 1] == 45 {
        if pat[lo] <= c && c <= pat[lo + 2] {
            true
        } else {
            proof {
                assert(content.skip(3) =~= pat@.subrange(lo + 3, hi as int));
            }
            class_content_at(pat, lo + 3, hi, c)
        }
    } else {
        if c == pat[lo] {
            true
        } else {
            proof {
                assert(content.skip(1) =~= pat@.subrange(lo + 1, hi as int));
            }
            class_content_at(pat, lo + 1, hi, c)
        }
    }
}

/// Whether the pattern segment `pat`, from position `pi` on, matches the
/// path segment `s` from position `si` on.
pub fn seg_match_at(pat: &Vec<u8>, pi: usize, s: &Vec<u8>, si: usize) -> (r: bool)
    requires
        pi <= pat@.len(),
        si <= s@.len(),
    ensures
        r == seg_match(pat@.skip(pi as int), s@.skip(si as int)),
    decreases pat@.len() - pi, s@.len() - si,
{
    let ghost p = pat@.skip(pi as int);
    let ghost t = s@.skip(si as int);
    if pi == pat.len() {
        si == s.len()
    } else if pat[pi] == 42 {
        proof {
            assert(p.skip(1) =~= pat@.skip(pi + 1));
        }
        if seg_match_at(pat, pi + 1, s, si) {
            true
        } else if si < s.len() {
            proof {
                assert(t.skip(1) =~= s@.skip(si + 1));
            }
            seg_match_at(pat, pi, s, si + 1)
        } else {
            false
        }
    } else if pat[pi] == 63 {
        if si < s.len() {
            proof {
                assert(p.skip(1) =~= pat@.skip(pi + 1));
                assert(t.skip(1) =~= s@.skip(si + 1));
            }
            seg_match_at(pat, pi + 1, s, si + 1)
        } else {
            false
        }
    } else if pat[pi] == 91 {
        proof {
            lemma_find_byte_skip(pat@, 93, pi as int, 1);
            lemma_find_byte_range(pat@, 93, pi + 1);
        }
        match find_byte_at(pat, 93, pi + 1) {
            None => false,
            Some(close) => {
                let ghost rel = close - pi as int;
                proof {
                    assert(find_byte(p, 93, 1) == rel);
                }
                if si == s.len() {
                    false
                } else {
                    let neg = close > pi + 1 && pat[pi + 1] == 33;
                    let lo = if neg {
                        pi + 2
                    } else {
                        pi + 1
                    };
                    proof {
                        if neg {
                            assert(p.subrange(2, rel) =~= pat@.subrange(lo as int, close as int));
                        } else {
                            assert(p.subrange(1, rel) =~= pat@.subrange(lo as int, close as int));
                        }
                    }
                    let inside = class_content_at(pat, lo, close, s[si]);
                    let hit = if neg {
                        !inside
                    } else {
                        inside
                    };
                    proof {
                        assert(hit == class_step_matches(p, rel, t[0]));
                    }
                    if hit {
                        proof {
                            assert(p.skip(rel + 1) =~= pat@.skip(close + 1));
                            assert(t.skip(1) =~= s@.skip(si + 1));
                        }
                        seg_match_at(pat, close + 1, s, si + 1)
                    } else {
                        false
                    }
                }
            },
        }
    } else {
        if si < s.len() && s[si] == pat[pi] {
            proof {
                assert(p.skip(1) =~= pat@.skip(pi + 1));
                assert(t.skip(1) =~= s@.skip(si + 1));
            }
            seg_match_at(pat, pi + 1, s, si + 1)
        } else {
            false
        }
    }
}

fn is_double_star_seg(seg: &Vec<u8>) -> (r: bool)
    ensures
        r == is_double_star(seg@),
{
    seg.len() == 2 && seg[0] == 42 && seg[1] == 42
}

/// Whether the pattern segments `pats`, from index `pi` on, match the path
/// segments `path` from index `qi` on.
pub fn segs_match_at(pats: &Vec<Vec<u8>>, pi: usize, path: &Vec<Vec<u8>>, qi: usize) -> (r: bool)
    requires
        pi <= pats@.len(),
        qi <= path@.len(),
    ensures
        r == segs_match(views_of(pats@).skip(pi as int), views_of(path@).skip(qi as int)),
    decreases pats@.len() - pi, path@.len() - qi,
{
    let ghost pv = views_of(pats@).skip(pi as int);
    let ghost qv = views_of(path@).skip(qi as int);
    if pi == pats.len() {
        qi == path.len()
    } else if is_double_star_seg(&pats[pi]) {
        proof {
            assert(pv[0] == pats@[pi as int]@);
            assert(pv.skip(1) =~= views_of(pats@).skip(pi + 1));
        }
        if segs_match_at(pats, pi + 1, path, qi) {
            true
        } else if qi < path.len() {
            proof {
                assert(qv.skip(1) =~= views_of(path@).skip(qi + 1));
            }
            segs_match_at(pats, pi, path, qi + 1)
        } else {
            false
        }
    } else {
        proof {
            assert(pv[0] == pats@[pi as int]@);
            assert(pats@[pi as int]@.skip(0) =~= pats@[pi as int]@);
        }
        if qi < path.len() {
            proof {
                assert(qv[0] == path@[qi as int]@);
                assert(path@[qi as int]@.skip(0) =~= path@[qi as int]@);
            }
            if seg_match_at(&pats[pi], 0, &path[qi], 0) {
                proof {
                    assert(pv.skip(1) =~= views_of(pats@).skip(pi + 1));
                    assert(qv.skip(1) =~= views_of(path@).skip(qi + 1));
                }
                segs_match_at(pats, pi + 1, path, qi + 1)
            } else {
                false
            }
        } else {
            false
        }
    }
}

/// Whether every class in the pattern segment, from position `i` on, is
/// closed.
pub fn classes_ok_at(pat: &Vec<u8>, i: usize) -> (r: bool)
    requires
        i <= pat@.len(),
    ensures
        r == classes_ok(pat@.skip(i as int)),
    decreases pat@.len() - i,
{
    let ghost p = pat@.skip(i as int);
    if i == pat.len() {
        true
    } else if pat[i] == 91 {
        proof {
            lemma_find_byte_skip(pat@, 93, i as int, 1);
            lemma_find_byte_range(pat@, 93, i + 1);
        }
        match find_byte_at(pat, 93, i + 1) {
            None => false,
            Some(close) => {
                proof {
                    assert(p.skip(close - i as int + 1) =~= pat@.skip(close + 1));
                }
                classes_ok_at(pat, close + 1)
            },
        }
    } else {
        proof {
            assert(p.skip(1) =~= pat@.skip(i + 1));
        }
        classes_ok_at(pat, i + 1)
    }
}

} // verus!
