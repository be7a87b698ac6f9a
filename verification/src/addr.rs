//! Connect-target parsing: a host address typed by the user must be four
//! dot-separated decimal octets. A string that does not parse this way is
//! reported and no connection is attempted.

use vstd::prelude::*;

verus! {

use crate::text::{valid_u8_seg, dec_val, parse_u8_decimal, lemma_dec_val_nonneg};

/// End of the dot-separated segment that starts at `i`: the first `.` at
/// or after `i`, or the end of the sequence.
pub open spec fn seg_end(s: Seq<char>, i: int) -> int
    decreases s.len() - i when 0 <= i <= s.len()
{
    if i >= s.len() {
        i
    } else if s[i] == '.' {
        i
    } else {
        seg_end(s, i + 1)
    }
}

pub proof fn lemma_seg_end_bounds(s: Seq<char>, i: int)
    requires
        0 <= i <= s.len(),
    ensures
        i <= seg_end(s, i) <= s.len(),
    decreases s.len() - i,
{
    if i < s.len() && s[i] != '.' {
        lemma_seg_end_bounds(s, i + 1);
    }
}

/// The dot-separated segments of the suffix of `s` that starts at `i`.
/// Unlike whitespace tokenization, consecutive dots yield empty segments,
/// exactly as splitting on a single separator does.
pub open spec fn dot_segments_from(s: Seq<char>, i: int) -> Seq<Seq<char>>
    decreases s.len() - i when 0 <= i <= s.len() via dot_segments_from_decreases
{
    let e = seg_end(s, i);
    if e >= s.len() {
        seq![s.subrange(i, e)]
    } else {
        seq![s.subrange(i, e)] + dot_segments_from(s, e + 1)
    }
}

#[via_fn]
proof fn dot_segments_from_decreases(s: Seq<char>, i: int) {
    if 0 <= i <= s.len() {
        lemma_seg_end_bounds(s, i);
    }
}

/// All dot-separated segments of the sequence.
pub open spec fn dot_segments(s: Seq<char>) -> Seq<Seq<char>> {
    dot_segments_from(s, 0)
}

/// The segments that parse as octets, in order; the others are skipped.
pub open spec fn kept_octets(segs: Seq<Seq<char>>) -> Seq<u8>
    decreases segs.len(),
{
    if segs.len() == 0 {
        Seq::empty()
    } else {
        let rest = kept_octets(segs.drop_last());
        if valid_u8_seg(segs.last()) {
            rest.push(dec_val(segs.last()) as u8)
        } else {
            rest
        }
    }
}

/// A connect target parses when exactly four of its dot-separated segments
/// are octets; the address is those four, in order.
pub open spec fn parse_ipv4_spec(s: Seq<char>) -> Option<(u8, u8, u8, u8)> {
    let kept = kept_octets(dot_segments(s));
    if kept.len() == 4 {
        Some((kept[0], kept[1], kept[2], kept[3]))
    } else {
        None
    }
}

fn scan_seg_end(s: &str, i: usize, slen: usize) -> (j: usize)
    requires
        slen == s@.len(),
        i <= slen,
    ensures
        j == seg_end(s@, i as int),
        i <= j <= slen,
    decreases slen - i,
{
    if i >= slen {
        return i;
    }
    if s.get_char(i) == '.' {
        i
    } else {
        scan_seg_end(s, i + 1, slen)
    }
}

/// Unfolding of `kept_octets` over one more trailing segment.
proof fn lemma_kept_step(segs: Seq<Seq<char>>, seg: Seq<char>)
    ensures
        kept_octets(segs.push(seg)) == if valid_u8_seg(seg) {
            kept_octets(segs).push(dec_val(seg) as u8)
        } else {
            kept_octets(segs)
        },
{
    assert(segs.push(seg).drop_last() =~= segs);
    assert(segs.push(seg).last() == seg);
}

/// Parse a connect target of the form `a.b.c.d`. `Some` exactly when four
/// of the dot-separated segments are decimal octets: then the result is
/// those four octets in order; otherwise the target is rejected.
pub fn parse_ipv4(s: &str) -> (r: Option<(u8, u8, u8, u8)>)
    ensures
        r == parse_ipv4_spec(s@),
{
    let n = s.unicode_len();
    let mut kept: Vec<u8> = Vec::new();
    let ghost mut segs_done: Seq<Seq<char>> = Seq::empty();
    let mut i: usize = 0;
    let mut done = false;
    proof {
        assert(kept@ =~= kept_octets(segs_done));
        assert(dot_segments(s@) =~= segs_done + dot_segments_from(s@, 0));
    }
    while !done
        invariant
            i <= n,
            n == s@.len(),
            kept@ == kept_octets(segs_done),
            !done ==> dot_segments(s@) == segs_done + dot_segments_from(s@, i as int),
            done ==> dot_segments(s@) == segs_done,
        decreases (if done { 0int } else { n - i + 1 }),
    {
        let j = scan_seg_end(s, i, n);
        let piece = s.substring_char(i, j);
        let ghost seg = s@.subrange(i as int, j as int);
        let parsed = parse_u8_decimal(piece);
        match parsed {
            Some(v) => {
                kept.push(v);
                proof {
                    lemma_kept_step(segs_done, seg);
                    lemma_dec_val_nonneg(seg);
                    assert(kept@ =~= kept_octets(segs_done.push(seg)));
                }
            },
            None => {
                proof {
                    lemma_kept_step(segs_done, seg);
                }
            },
        }
        proof {
            segs_done = segs_done.push(seg);
        }
        if j >= n {
            done = true;
            proof {
                assert(dot_segments_from(s@, i as int) =~= seq![seg]);
                assert(dot_segments(s@) =~= segs_done);
            }
        } else {
            proof {
                assert(dot_segments_from(s@, i as int) =~= seq![seg] + dot_segments_from(
                    s@,
                    j as int + 1,
                ));
                assert(segs_done + dot_segments_from(s@, j as int + 1) =~= dot_segments(s@));
            }
            i = j + 1;
        }
    }
    if kept.len() == 4 {
        let a = kept[0];
        let b = kept[1];
        let c = kept[2];
        let d = kept[3];
        Some((a, b, c, d))
    } else {
        None
    }
}

} // verus!
