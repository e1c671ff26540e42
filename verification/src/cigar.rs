//! Decoding a CIGAR string into reference-coordinate intervals.
//!
//! A CIGAR string is a sequence of `<digits><single-letter-op>` tokens.  A
//! match-or-mismatch or deletion run (`M`, `D`) consumes reference bases and
//! emits an interval; a splice skip (`N`) advances the reference cursor
//! without emitting; every other operation (insertions, clips, ...) consumes
//! no reference coordinates and is ignored.

use vstd::prelude::*;

use crate::intervals::{
    all_proper, chained, iv_views, merge_range, merge_spec, separated, starts_sorted,
};
use crate::records::RelocError;

verus! {

/// The byte is an ASCII decimal digit.
pub open spec fn is_ascii_digit(b: u8) -> bool {
    48 <= b <= 57
}

/// The byte is an ASCII letter, the shape every operation code has.
pub open spec fn is_op_letter(b: u8) -> bool {
    (65 <= b <= 90) || (97 <= b <= 122)
}

/// The operation consumes reference bases and emits an interval: `M` or `D`.
pub open spec fn emits(b: u8) -> bool {
    b == 77 || b == 68
}

/// The operation advances the reference cursor without emitting: `N`.
pub open spec fn skips(b: u8) -> bool {
    b == 78
}

/// How many consecutive digits stand at position `i`.
pub open spec fn digit_run(s: Seq<u8>, i: int) -> nat
    decreases s.len() - i,
{
    if 0 <= i < s.len() && is_ascii_digit(s[i]) {
        (1 + digit_run(s, i + 1)) as nat
    } else {
        0
    }
}

/// The decimal value of the digits `s[i..j]`.
pub open spec fn num_value(s: Seq<u8>, i: int, j: int) -> int
    decreases j - i,
{
    if i < j {
        10 * num_value(s, i, j - 1) + (s[j - 1] - 48)
    } else {
        0
    }
}

/// From position `i` on, the string splits into `<digits><letter>` tokens.
pub open spec fn wf_from(s: Seq<u8>, i: int) -> bool
    decreases s.len() - i,
{
    if i < 0 || i >= s.len() {
        true
    } else {
        let j = i + digit_run(s, i);
        if j == i || j >= s.len() {
            false
        } else {
            is_op_letter(s[j]) && wf_from(s, j + 1)
        }
    }
}

/// Every run length from position `i` on fits the coordinate type.
pub open spec fn nums_fit(s: Seq<u8>, i: int) -> bool
    decreases s.len() - i,
{
    if i < 0 || i >= s.len() {
        true
    } else {
        let j = i + digit_run(s, i);
        if j == i || j >= s.len() {
            true
        } else {
            num_value(s, i, j) <= i64::MAX && nums_fit(s, j + 1)
        }
    }
}

/// How far the reference cursor advances from position `i` on: the sum of
/// the reference-consuming run lengths (`M`, `D`, `N`).
pub open spec fn advance(s: Seq<u8>, i: int) -> int
    decreases s.len() - i,
{
    if i < 0 || i >= s.len() {
        0
    } else {
        let j = i + digit_run(s, i);
        if j == i || j >= s.len() {
            0
        } else {
            (if emits(s[j]) || skips(s[j]) {
                num_value(s, i, j)
            } else {
                0
            }) + advance(s, j + 1)
        }
    }
}

/// The sum of the `M` and `D` run lengths from position `i` on.
pub open spec fn md_sum(s: Seq<u8>, i: int) -> int
    decreases s.len() - i,
{
    if i < 0 || i >= s.len() {
        0
    } else {
        let j = i + digit_run(s, i);
        if j == i || j >= s.len() {
            0
        } else {
            (if emits(s[j]) {
                num_value(s, i, j)
            } else {
                0
            }) + md_sum(s, j + 1)
        }
    }
}

/// The sum of the `N` run lengths from position `i` on.
pub open spec fn n_sum(s: Seq<u8>, i: int) -> int
    decreases s.len() - i,
{
    if i < 0 || i >= s.len() {
        0
    } else {
        let j = i + digit_run(s, i);
        if j == i || j >= s.len() {
            0
        } else {
            (if skips(s[j]) {
                num_value(s, i, j)
            } else {
                0
            }) + n_sum(s, j + 1)
        }
    }
}

/// The intervals emitted from position `i` on, with the reference cursor at
/// absolute coordinate `cur`.
pub open spec fn decode_from(s: Seq<u8>, i: int, cur: int) -> Seq<(int, int)>
    decreases s.len() - i,
{
    if i < 0 || i >= s.len() {
        Seq::empty()
    } else {
        let j = i + digit_run(s, i);
        if j == i || j >= s.len() {
            Seq::empty()
        } else {
            let n = num_value(s, i, j);
            if emits(s[j]) {
                seq![(cur, cur + n)] + decode_from(s, j + 1, cur + n)
            } else if skips(s[j]) {
                decode_from(s, j + 1, cur + n)
            } else {
                decode_from(s, j + 1, cur)
            }
        }
    }
}

/// The reference coordinate at which the decoder's cursor stops: the
/// alignment start plus every reference-consuming run length.
pub open spec fn terminal_coordinate(s: Seq<u8>, offset: int) -> int {
    offset + advance(s, 0)
}

/// The whole CIGAR decodes without error against this alignment start: the
/// tokens are well formed, every run length fits the coordinate type, and the
/// terminal reference coordinate does too.
pub open spec fn cigar_ok(s: Seq<u8>, offset: int) -> bool {
    wf_from(s, 0) && nums_fit(s, 0) && offset + advance(s, 0) <= i64::MAX
}

/// The decoded and merged reference footprint of a CIGAR string placed at
/// `offset`.
pub open spec fn footprint(s: Seq<u8>, offset: int) -> Seq<(int, int)> {
    merge_spec(decode_from(s, 0, offset))
}

/// Every byte of `s[i..i + digit_run(s, i)]` is a digit, and the run is
/// maximal.
proof fn lemma_digit_run_digits(s: Seq<u8>, i: int)
    requires
        0 <= i <= s.len(),
    ensures
        i + digit_run(s, i) <= s.len(),
        forall|k: int| i <= k < i + digit_run(s, i) ==> is_ascii_digit(s[k]),
        i + digit_run(s, i) < s.len() ==> !is_ascii_digit(s[i + digit_run(s, i)]),
    decreases s.len() - i,
{
    if i < s.len() && is_ascii_digit(s[i]) {
        lemma_digit_run_digits(s, i + 1);
    }
}

/// A maximal digit scan finds exactly `digit_run`.
proof fn lemma_digit_run_exact(s: Seq<u8>, i: int, j: int)
    requires
        0 <= i <= j <= s.len(),
        forall|k: int| i <= k < j ==> is_ascii_digit(s[k]),
        j == s.len() || !is_ascii_digit(s[j]),
    ensures
        i + digit_run(s, i) == j,
    decreases j - i,
{
    if i < j {
        lemma_digit_run_exact(s, i + 1, j);
    }
}

/// A digit run scanned so far can only grow.
proof fn lemma_digit_run_at_least(s: Seq<u8>, i: int, j: int)
    requires
        0 <= i <= j <= s.len(),
        forall|k: int| i <= k < j ==> is_ascii_digit(s[k]),
    ensures
        digit_run(s, i) >= j - i,
    decreases j - i,
{
    if i < j {
        lemma_digit_run_at_least(s, i + 1, j);
    }
}

/// The value of a digit string is non-negative.
proof fn lemma_num_value_nonneg(s: Seq<u8>, i: int, j: int)
    requires
        0 <= i <= j <= s.len(),
        forall|k: int| i <= k < j ==> is_ascii_digit(s[k]),
    ensures
        num_value(s, i, j) >= 0,
    decreases j - i,
{
    if i < j {
        lemma_num_value_nonneg(s, i, j - 1);
    }
}

/// Extending a digit string can only increase its value.
proof fn lemma_num_value_mono(s: Seq<u8>, i: int, j1: int, j2: int)
    requires
        0 <= i <= j1 <= j2 <= s.len(),
        forall|k: int| i <= k < j2 ==> is_ascii_digit(s[k]),
    ensures
        num_value(s, i, j1) <= num_value(s, i, j2),
    decreases j2 - j1,
{
    if j1 < j2 {
        lemma_num_value_mono(s, i, j1, j2 - 1);
        lemma_num_value_nonneg(s, i, j2 - 1);
    }
}

/// Under well-formed tokens the cursor never moves backwards.
proof fn lemma_advance_nonneg(s: Seq<u8>, i: int)
    requires
        wf_from(s, i),
    ensures
        advance(s, i) >= 0,
    decreases s.len() - i,
{
    if 0 <= i < s.len() {
        let j = i + digit_run(s, i);
        lemma_digit_run_digits(s, i);
        lemma_num_value_nonneg(s, i, j);
        lemma_advance_nonneg(s, j + 1);
    }
}

/// Unfolds each per-token recursion one step at a fixed token boundary.
proof fn lemma_token_step(s: Seq<u8>, i: int, j: int, cur: int)
    requires
        0 <= i < s.len(),
        i + digit_run(s, i) == j,
        i < j < s.len(),
        is_op_letter(s[j]),
    ensures
        wf_from(s, i) == wf_from(s, j + 1),
        nums_fit(s, i) == (num_value(s, i, j) <= i64::MAX && nums_fit(s, j + 1)),
        advance(s, i) == (if emits(s[j]) || skips(s[j]) {
            num_value(s, i, j)
        } else {
            0
        }) + advance(s, j + 1),
        emits(s[j]) ==> decode_from(s, i, cur) == seq![(cur, cur + num_value(s, i, j))]
            + decode_from(s, j + 1, cur + num_value(s, i, j)),
        skips(s[j]) ==> decode_from(s, i, cur) == decode_from(s, j + 1, cur + num_value(s, i, j)),
        !emits(s[j]) && !skips(s[j]) ==> decode_from(s, i, cur) == decode_from(s, j + 1, cur),
{
}

/// Decodes a CIGAR string placed at alignment start `offset` into the merged,
/// ordered reference intervals it covers.  Fails with [`RelocError::ParseError`]
/// exactly when some token is not `<digits><single-letter-op>`, a run length
/// does not fit the coordinate type, or the terminal coordinate does not.
#[verifier::rlimit(100)]
#[verifier::spinoff_prover]
pub fn cigar_parser(cigar: &Vec<u8>, offset: i64) -> (r: Result<Vec<(i64, i64)>, RelocError>)
    ensures
        r is Ok <==> cigar_ok(cigar@, offset as int),
        r matches Ok(v) ==> iv_views(v@) == footprint(cigar@, offset as int),
        r matches Ok(v) ==> all_proper(iv_views(v@)) && separated(iv_views(v@)),
        r matches Ok(v) ==> forall|k: int|
            0 <= k < v@.len() ==> offset as int <= (#[trigger] iv_views(v@)[k]).0,
        r matches Ok(v) ==> forall|k: int|
            0 <= k < v@.len() ==> (#[trigger] iv_views(v@)[k]).1 <= iv_views(v@).last().1,
        r is Err ==> r == Err::<Vec<(i64, i64)>, RelocError>(RelocError::ParseError),
{
    let ghost s = cigar@;
    let mut raw: Vec<(i64, i64)> = Vec::new();
    let mut end: i64 = offset;
    let mut i: usize = 0;

    while i < cigar.len()
        invariant
            0 <= i <= s.len(),
            s == cigar@,
            wf_from(s, 0) <==> wf_from(s, i as int),
            nums_fit(s, 0) <==> nums_fit(s, i as int),
            offset + advance(s, 0) == end + advance(s, i as int),
            decode_from(s, 0, offset as int) == iv_views(raw@) + decode_from(
                s,
                i as int,
                end as int,
            ),
            offset <= end,
            all_proper(iv_views(raw@)),
            starts_sorted(iv_views(raw@)),
            chained(iv_views(raw@)),
            forall|k: int| 0 <= k < raw@.len() ==> (#[trigger] iv_views(raw@)[k]).0 >= offset,
            forall|k: int| 0 <= k < raw@.len() ==> (#[trigger] iv_views(raw@)[k]).1 <= end,
        decreases s.len() - i,
    {
        // Scan the run length digits.
        let mut j: usize = i;
        let mut num: i64 = 0;
        while j < cigar.len() && byte_is_digit(cigar[j])
            invariant
                i <= j <= s.len(),
                s == cigar@,
                wf_from(s, 0) <==> wf_from(s, i as int),
                nums_fit(s, 0) <==> nums_fit(s, i as int),
                forall|k: int| i <= k < j ==> is_ascii_digit(s[k]),
                num == num_value(s, i as int, j as int),
                0 <= num,
            decreases s.len() - j,
        {
            let d = cigar[j] - 48;
            let scaled = match num.checked_mul(10) {
                Some(v) => v,
                None => {
                    proof {
                        overflow_means_unfit(s, i as int, j as int, num as int, d as int);
                    }
                    return Err(RelocError::ParseError);
                },
            };
            let next = match scaled.checked_add(d as i64) {
                Some(v) => v,
                None => {
                    proof {
                        overflow_means_unfit(s, i as int, j as int, num as int, d as int);
                    }
                    return Err(RelocError::ParseError);
                },
            };
            num = next;
            j += 1;
        }
        proof {
            lemma_digit_run_exact(s, i as int, j as int);
        }

        if j == i || j == cigar.len() {
            // No digits, or digits with no operation code following.
            assert(!wf_from(s, i as int));
            return Err(RelocError::ParseError);
        }
        let op = cigar[j];
        if !(op >= 65 && op <= 90 || op >= 97 && op <= 122) {
            assert(!wf_from(s, i as int));
            return Err(RelocError::ParseError);
        }
        proof {
            lemma_token_step(s, i as int, j as int, end as int);
        }

        if op == 77 || op == 68 || op == 78 {
            // M, D or N: the cursor advances by the run length.
            let new_end = match end.checked_add(num) {
                Some(v) => v,
                None => {
                    proof {
                        if wf_from(s, 0) {
                            lemma_advance_nonneg(s, j as int + 1);
                        }
                    }
                    return Err(RelocError::ParseError);
                },
            };
            if op == 77 || op == 68 {
                // M or D additionally emits the covered interval.
                let ghost old_raw = raw@;
                raw.push((end, new_end));
                proof {
                    let e = (end as int, new_end as int);
                    assert(iv_views(raw@) =~= iv_views(old_raw) + seq![e]);
                    assert((iv_views(old_raw) + seq![e]) + decode_from(s, j + 1, new_end as int)
                        =~= iv_views(old_raw) + (seq![e] + decode_from(s, j + 1, new_end as int)));
                    assert forall|k: int| 0 <= k < raw@.len() implies (
                    #[trigger] iv_views(raw@)[k]).0 >= offset by {
                        if k < old_raw.len() {
                            assert(iv_views(raw@)[k] == iv_views(old_raw)[k]);
                        }
                    }
                    assert forall|k: int| 0 <= k < raw@.len() implies (
                    #[trigger] iv_views(raw@)[k]).1 <= new_end by {
                        if k < old_raw.len() {
                            assert(iv_views(raw@)[k] == iv_views(old_raw)[k]);
                        }
                    }
                    assert forall|k: int, l: int| 0 <= k < l < raw@.len() implies iv_views(
                        raw@,
                    )[k].0 <= iv_views(raw@)[l].0 by {
                        assert(iv_views(raw@)[k] == if k < old_raw.len() {
                            iv_views(old_raw)[k]
                        } else {
                            e
                        });
                        assert(iv_views(raw@)[l] == if l < old_raw.len() {
                            iv_views(old_raw)[l]
                        } else {
                            e
                        });
                    }
                    assert forall|k: int| 0 <= k && k + 1 < raw@.len() implies (
                    #[trigger] iv_views(raw@)[k]).1 <= iv_views(raw@)[k + 1].0 by {
                        assert(iv_views(raw@)[k + 1] == if k + 1 < old_raw.len() {
                            iv_views(old_raw)[k + 1]
                        } else {
                            e
                        });
                        if k < old_raw.len() {
                            assert(iv_views(raw@)[k] == iv_views(old_raw)[k]);
                        }
                    }
                    assert forall|k: int| 0 <= k < raw@.len() implies iv_views(raw@)[k].0
                        <= (#[trigger] iv_views(raw@)[k]).1 by {
                        if k < old_raw.len() {
                            assert(iv_views(raw@)[k] == iv_views(old_raw)[k]);
                        }
                    }
                }
            }
            end = new_end;
        }
        i = j + 1;
    }

    // Every token was consumed: the string is well formed, all run lengths
    // fit, and the terminal coordinate is `end`.
    assert(wf_from(s, i as int));
    assert(nums_fit(s, i as int));
    assert(decode_from(s, i as int, end as int) =~= Seq::<(int, int)>::empty());
    assert(iv_views(raw@) =~= iv_views(raw@) + decode_from(s, i as int, end as int));

    let merged = merge_range(&raw);
    proof {
        if raw@.len() > 0 {
            crate::intervals::lemma_merge_spec_props(iv_views(raw@));
        } else {
            assert(iv_views(raw@).len() == 0);
            assert(merge_spec(iv_views(raw@)) =~= Seq::<(int, int)>::empty());
        }
    }
    Ok(merged)
}

/// A digit-accumulation overflow means the full run length cannot fit.
proof fn overflow_means_unfit(s: Seq<u8>, i: int, j: int, num: int, d: int)
    requires
        0 <= i <= j < s.len(),
        forall|k: int| i <= k < j ==> is_ascii_digit(s[k]),
        is_ascii_digit(s[j]),
        num == num_value(s, i, j),
        d == s[j] - 48,
        10 * num + d > i64::MAX,
    ensures
        !(wf_from(s, i) && nums_fit(s, i)),
{
    if wf_from(s, i) && nums_fit(s, i) {
        let full = i + digit_run(s, i);
        lemma_digit_run_digits(s, i);
        lemma_digit_run_at_least(s, i, j + 1);
        assert(num_value(s, i, j + 1) == 10 * num + d);
        if full < s.len() {
            lemma_num_value_mono(s, i, j + 1, full);
            assert(num_value(s, i, full) > i64::MAX);
            assert(full != i);
            assert(!nums_fit(s, i));
        } else {
            assert(!wf_from(s, i));
        }
    }
}

/// The byte is an ASCII decimal digit.
pub fn byte_is_digit(b: u8) -> (r: bool)
    ensures
        r == is_ascii_digit(b),
{
    b >= 48 && b <= 57
}

/// For every well-formed CIGAR string, the sum of the `M` and `D` run lengths
/// plus the `N` run lengths plus the alignment start equals the terminal
/// reference coordinate the decoder reaches.
pub proof fn lemma_terminal_coordinate(s: Seq<u8>, offset: int)
    requires
        wf_from(s, 0),
    ensures
        terminal_coordinate(s, offset) == offset + md_sum(s, 0) + n_sum(s, 0),
{
    lemma_sums_split(s, 0);
}

/// `advance` splits into the `M`/`D` part and the `N` part.
proof fn lemma_sums_split(s: Seq<u8>, i: int)
    ensures
        advance(s, i) == md_sum(s, i) + n_sum(s, i),
    decreases s.len() - i,
{
    if 0 <= i < s.len() {
        let j = i + digit_run(s, i);
        if !(j == i || j >= s.len()) {
            lemma_sums_split(s, j + 1);
        }
    }
}

} // verus!
