//! The range resolver: for one rule and the full line corpus, find every
//! anchor line matching the start pattern and compute the selected index
//! range for each anchor.

use vstd::prelude::*;

use crate::pattern::regex_match;
use crate::rule::{Rule, RuleModel};

verus! {

/// The view of the corpus: each line as its character sequence.
pub open spec fn lines_view(lines: Seq<String>) -> Seq<Seq<char>> {
    lines.map_values(|s: String| s@)
}

/// The scan step: +1 forward, -1 backward.
pub open spec fn scan_step(r: RuleModel) -> int {
    if r.backward {
        -1
    } else {
        1
    }
}

/// How far `j` lies from `anchor` along the scan direction (negative when
/// `j` lies against the direction).
pub open spec fn scan_dist(r: RuleModel, anchor: int, j: int) -> int {
    if r.backward {
        anchor - j
    } else {
        j - anchor
    }
}

pub open spec fn abs_of(x: int) -> int {
    if x < 0 {
        -x
    } else {
        x
    }
}

/// Whether the cursor may be visited: inside the corpus, and no farther than
/// `limit` lines from the anchor.
pub open spec fn in_scan(r: RuleModel, len: int, anchor: int, cursor: int) -> bool {
    &&& 0 <= cursor < len
    &&& abs_of(cursor - anchor) <= r.limit
}

/// The scan for one anchor, already advanced to `cursor`: visit cursor
/// positions in scan order; the first line matching the stop pattern closes
/// the range inclusively; the first line failing the while pattern closes it
/// one step earlier; when the scan runs out of corpus or limit, a while rule
/// keeps everything scanned and a stop-only rule yields nothing.
pub open spec fn scan_from(r: RuleModel, lines: Seq<Seq<char>>, anchor: int, cursor: int) -> Option<
    (int, int),
>
    decreases r.limit + 1 - scan_dist(r, anchor, cursor),
{
    if !in_scan(r, lines.len() as int, anchor, cursor) {
        if r.while_pat is Some {
            Some((anchor, cursor - scan_step(r)))
        } else {
            None
        }
    } else if r.stop matches Some(p) && regex_match(p, lines[cursor]) {
        Some((anchor, cursor))
    } else if r.while_pat matches Some(w) && !regex_match(w, lines[cursor]) {
        Some((anchor, cursor - scan_step(r)))
    } else {
        scan_from(r, lines, anchor, cursor + scan_step(r))
    }
}

/// The raw resolved pair for one anchor, before offsets and clamping: a rule
/// without stop and while patterns selects just the anchor line; otherwise
/// the scan starts one step away from the anchor.
pub open spec fn raw_range(r: RuleModel, lines: Seq<Seq<char>>, anchor: int) -> Option<(int, int)> {
    if r.stop is Some || r.while_pat is Some {
        scan_from(r, lines, anchor, anchor + scan_step(r))
    } else {
        Some((anchor, anchor))
    }
}

pub open spec fn clamped(x: int, len: int) -> int {
    if x < 0 {
        0
    } else if x > len - 1 {
        len - 1
    } else {
        x
    }
}

/// The half-open index range an anchor contributes to the selection: offsets
/// applied to the raw endpoints, both clamped into the corpus, and the
/// emission order decided by the pre-offset ordering.
pub open spec fn emitted_range(r: RuleModel, lines: Seq<Seq<char>>, anchor: int) -> Option<
    (int, int),
> {
    match raw_range(r, lines, anchor) {
        None => None,
        Some((a0, b0)) => {
            let a = clamped(a0 + r.start_offset, lines.len() as int);
            let b = clamped(b0 + r.stop_offset, lines.len() as int);
            if a0 <= b0 {
                Some((a, b + 1))
            } else {
                Some((b, a + 1))
            }
        }
    }
}

/// Whether line `i` is an anchor of the rule: in the corpus and matching the
/// start pattern.
pub open spec fn is_anchor(r: RuleModel, lines: Seq<Seq<char>>, i: int) -> bool {
    &&& 0 <= i < lines.len()
    &&& r.start matches Some(p) && regex_match(p, lines[i])
}

pub open spec fn range_set(lo: int, hi: int) -> Set<int> {
    Set::new(|i: int| lo <= i < hi)
}

/// The line indices anchor `i` contributes: empty unless `i` is an anchor
/// that resolves to a range.
pub open spec fn anchor_selection(r: RuleModel, lines: Seq<Seq<char>>, i: int) -> Set<int> {
    if is_anchor(r, lines, i) {
        match emitted_range(r, lines, i) {
            None => Set::empty(),
            Some((lo, hi)) => range_set(lo, hi),
        }
    } else {
        Set::empty()
    }
}

/// The union of the contributions of all anchors below `n`.
pub open spec fn rule_selection_upto(r: RuleModel, lines: Seq<Seq<char>>, n: int) -> Set<int>
    decreases n,
{
    if n <= 0 {
        Set::empty()
    } else {
        rule_selection_upto(r, lines, n - 1).union(anchor_selection(r, lines, n - 1))
    }
}

/// All line indices one rule selects in the corpus.
pub open spec fn rule_selection(r: RuleModel, lines: Seq<Seq<char>>) -> Set<int> {
    rule_selection_upto(r, lines, lines.len() as int)
}

/// The emitted ranges of the anchors below `n`, in corpus order.
pub open spec fn rule_ranges_upto(r: RuleModel, lines: Seq<Seq<char>>, n: int) -> Seq<(int, int)>
    decreases n,
{
    if n <= 0 {
        Seq::empty()
    } else {
        let prev = rule_ranges_upto(r, lines, n - 1);
        if is_anchor(r, lines, n - 1) {
            match emitted_range(r, lines, n - 1) {
                None => prev,
                Some(p) => prev.push(p),
            }
        } else {
            prev
        }
    }
}

/// The emitted ranges of all the rule's anchors, in corpus order.
pub open spec fn rule_ranges(r: RuleModel, lines: Seq<Seq<char>>) -> Seq<(int, int)> {
    rule_ranges_upto(r, lines, lines.len() as int)
}

pub open spec fn pair_view(p: Option<(i64, i64)>) -> Option<(int, int)> {
    match p {
        None => None,
        Some((a, b)) => Some((a as int, b as int)),
    }
}

/// Scan away from the anchor at `index` and resolve the raw range for this
/// anchor, exactly as `scan_from` describes it.
pub fn try_select(rule: &Rule, lines: &Vec<String>, index: i64) -> (r: Option<(i64, i64)>)
    requires
        lines@.len() < i64::MAX,
        0 <= index < lines@.len(),
        rule@.limit > 0,
    ensures
        pair_view(r) == scan_from(
            rule@,
            lines_view(lines@),
            index as int,
            index as int + scan_step(rule@),
        ),
{
    let ghost lv = lines_view(lines@);
    let ghost rm = rule@;
    let step: i64 = if rule.backward {
        -1
    } else {
        1
    };
    let mut cursor: i64 = index + step;
    loop
        invariant
            lines@.len() < i64::MAX,
            0 <= index < lines@.len(),
            rm.limit > 0,
            rm == rule@,
            lv == lines_view(lines@),
            step as int == scan_step(rm),
            1 <= scan_dist(rm, index as int, cursor as int) <= rm.limit + 1,
            -1 <= cursor <= lines@.len(),
            scan_from(rm, lv, index as int, index as int + scan_step(rm)) == scan_from(
                rm,
                lv,
                index as int,
                cursor as int,
            ),
        decreases rm.limit + 1 - scan_dist(rm, index as int, cursor as int),
    {
        let within_lo = cursor >= 0;
        let within_hi = cursor < lines.len() as i64;
        let dist: i64 = if cursor >= index {
            cursor - index
        } else {
            index - cursor
        };
        if !(within_lo && within_hi && dist <= rule.limit) {
            if rule.while_pat.is_some() {
                return Some((index, cursor - step));
            } else {
                return None;
            }
        }
        assert(in_scan(rm, lv.len() as int, index as int, cursor as int));
        let line: &String = &lines[cursor as usize];
        assert(lv[cursor as int] == line@);
        match &rule.stop {
            Some(p) => {
                if p.is_match(line.as_str()) {
                    return Some((index, cursor));
                }
            }
            None => {}
        }
        match &rule.while_pat {
            Some(w) => {
                if !w.is_match(line.as_str()) {
                    return Some((index, cursor - step));
                }
            }
            None => {}
        }
        cursor = cursor + step;
    }
}

proof fn lemma_plain_rule_upto(r: RuleModel, lines: Seq<Seq<char>>, n: int)
    requires
        r.stop is None,
        r.while_pat is None,
        r.start_offset == 0,
        r.stop_offset == 0,
        n <= lines.len(),
    ensures
        forall|i: int|
            #[trigger] rule_selection_upto(r, lines, n).contains(i) <==> (is_anchor(r, lines, i)
                && i < n),
    decreases n,
{
    if n > 0 {
        lemma_plain_rule_upto(r, lines, n - 1);
        if is_anchor(r, lines, n - 1) {
            assert(raw_range(r, lines, n - 1) == Some((n - 1, n - 1)));
            assert(clamped(n - 1, lines.len() as int) == n - 1);
            assert(emitted_range(r, lines, n - 1) == Some((n - 1, n)));
            assert(anchor_selection(r, lines, n - 1) == range_set(n - 1, n));
        }
        assert forall|i: int|
            #[trigger] rule_selection_upto(r, lines, n).contains(i) implies (is_anchor(r, lines, i)
            && i < n) by {
            assert(rule_selection_upto(r, lines, n - 1).contains(i) || anchor_selection(
                r,
                lines,
                n - 1,
            ).contains(i));
            if anchor_selection(r, lines, n - 1).contains(i) {
                assert(is_anchor(r, lines, n - 1));
                assert(range_set(n - 1, n).contains(i));
                assert(i == n - 1);
            }
        }
        assert forall|i: int| is_anchor(r, lines, i) && i < n implies #[trigger] rule_selection_upto(
            r,
            lines,
            n,
        ).contains(i) by {
            if i < n - 1 {
                assert(rule_selection_upto(r, lines, n - 1).contains(i));
            } else {
                assert(i == n - 1);
                assert(anchor_selection(r, lines, n - 1).contains(i));
            }
        }
    }
}

/// A rule with no stop pattern, no while pattern and no offsets selects
/// exactly its anchors: every line matching the start pattern, as a one-line
/// range, and nothing else.
pub proof fn lemma_plain_rule_selects_anchors(r: RuleModel, lines: Seq<Seq<char>>)
    requires
        r.stop is None,
        r.while_pat is None,
        r.start_offset == 0,
        r.stop_offset == 0,
    ensures
        forall|i: int|
            #[trigger] rule_selection(r, lines).contains(i) <==> is_anchor(r, lines, i),
{
    lemma_plain_rule_upto(r, lines, lines.len() as int);
}

proof fn lemma_scan_stop_from(
    r: RuleModel,
    lines: Seq<Seq<char>>,
    p: Seq<char>,
    anchor: int,
    cursor: int,
)
    requires
        r.while_pat is None,
        r.stop == Some(p),
        0 <= anchor < lines.len(),
        scan_dist(r, anchor, cursor) >= 1,
    ensures
        match scan_from(r, lines, anchor, cursor) {
            None => forall|j: int|
                #[trigger] in_scan(r, lines.len() as int, anchor, j) && scan_dist(r, anchor, j)
                    >= scan_dist(r, anchor, cursor) ==> !regex_match(p, lines[j]),
            Some(pr) => {
                &&& pr.0 == anchor
                &&& in_scan(r, lines.len() as int, anchor, pr.1)
                &&& scan_dist(r, anchor, pr.1) >= scan_dist(r, anchor, cursor)
                &&& regex_match(p, lines[pr.1])
                &&& forall|j: int|
                    #[trigger] in_scan(r, lines.len() as int, anchor, j) && scan_dist(r, anchor, cursor)
                        <= scan_dist(r, anchor, j) < scan_dist(r, anchor, pr.1) ==> !regex_match(
                        p,
                        lines[j],
                    )
            },
        },
    decreases r.limit + 1 - scan_dist(r, anchor, cursor),
{
    if !in_scan(r, lines.len() as int, anchor, cursor) {
    } else if regex_match(p, lines[cursor]) {
    } else {
        lemma_scan_stop_from(r, lines, p, anchor, cursor + scan_step(r));
    }
}

/// For a forward rule with a stop pattern and no while pattern, the raw
/// resolved range runs from the anchor to the first line matching the stop
/// pattern, inclusive, found within `limit` lines forward; with no such line
/// the anchor yields no range.
pub proof fn lemma_forward_stop_rule(
    r: RuleModel,
    lines: Seq<Seq<char>>,
    p: Seq<char>,
    anchor: int,
)
    requires
        !r.backward,
        r.stop == Some(p),
        r.while_pat is None,
        0 <= anchor < lines.len(),
    ensures
        match raw_range(r, lines, anchor) {
            None => forall|j: int|
                anchor < j < lines.len() && j - anchor <= r.limit ==> !regex_match(
                    p,
                    #[trigger] lines[j],
                ),
            Some(pr) => {
                &&& pr.0 == anchor
                &&& anchor < pr.1 < lines.len()
                &&& pr.1 - anchor <= r.limit
                &&& regex_match(p, lines[pr.1])
                &&& forall|j: int|
                    anchor < j < pr.1 ==> !regex_match(p, #[trigger] lines[j])
            },
        },
{
    lemma_scan_stop_from(r, lines, p, anchor, anchor + 1);
    let len = lines.len() as int;
    match raw_range(r, lines, anchor) {
        None => {
            assert forall|j: int| anchor < j < lines.len() && j - anchor <= r.limit implies
                !regex_match(p, #[trigger] lines[j]) by {
                assert(in_scan(r, len, anchor, j));
                assert(scan_dist(r, anchor, j) >= 1);
            }
        }
        Some(pr) => {
            assert forall|j: int| anchor < j < pr.1 implies !regex_match(
                p,
                #[trigger] lines[j],
            ) by {
                assert(in_scan(r, len, anchor, j));
                assert(1 <= scan_dist(r, anchor, j) < scan_dist(r, anchor, pr.1));
            }
        }
    }
}

/// For a backward rule with a stop pattern and no while pattern, the
/// equivalent holds scanning toward index 0: the raw range runs from the
/// anchor to the nearest earlier line matching the stop pattern within the
/// limit, else the anchor yields no range.
pub proof fn lemma_backward_stop_rule(
    r: RuleModel,
    lines: Seq<Seq<char>>,
    p: Seq<char>,
    anchor: int,
)
    requires
        r.backward,
        r.stop == Some(p),
        r.while_pat is None,
        0 <= anchor < lines.len(),
    ensures
        match raw_range(r, lines, anchor) {
            None => forall|j: int|
                0 <= j < anchor && anchor - j <= r.limit ==> !regex_match(p, #[trigger] lines[j]),
            Some(pr) => {
                &&& pr.0 == anchor
                &&& 0 <= pr.1 < anchor
                &&& anchor - pr.1 <= r.limit
                &&& regex_match(p, lines[pr.1])
                &&& forall|j: int|
                    pr.1 < j < anchor ==> !regex_match(p, #[trigger] lines[j])
            },
        },
{
    lemma_scan_stop_from(r, lines, p, anchor, anchor - 1);
    let len = lines.len() as int;
    match raw_range(r, lines, anchor) {
        None => {
            assert forall|j: int| 0 <= j < anchor && anchor - j <= r.limit implies !regex_match(
                p,
                #[trigger] lines[j],
            ) by {
                assert(in_scan(r, len, anchor, j));
                assert(scan_dist(r, anchor, j) >= 1);
            }
        }
        Some(pr) => {
            assert forall|j: int| pr.1 < j < anchor implies !regex_match(
                p,
                #[trigger] lines[j],
            ) by {
                assert(in_scan(r, len, anchor, j));
                assert(1 <= scan_dist(r, anchor, j) < scan_dist(r, anchor, pr.1));
            }
        }
    }
}

proof fn lemma_scan_while_from(
    r: RuleModel,
    lines: Seq<Seq<char>>,
    w: Seq<char>,
    anchor: int,
    cursor: int,
)
    requires
        r.stop is None,
        r.while_pat == Some(w),
        0 <= anchor < lines.len(),
        scan_dist(r, anchor, cursor) >= 1,
    ensures
        scan_from(r, lines, anchor, cursor) is Some,
        scan_from(r, lines, anchor, cursor) matches Some(pr) ==> pr.0 == anchor && scan_dist(
            r,
            anchor,
            pr.1,
        ) >= scan_dist(r, anchor, cursor) - 1,
        scan_from(r, lines, anchor, cursor) matches Some(pr) ==> (forall|j: int|
            scan_dist(r, anchor, cursor) <= #[trigger] scan_dist(r, anchor, j) <= scan_dist(
                r,
                anchor,
                pr.1,
            ) ==> in_scan(r, lines.len() as int, anchor, j) && regex_match(w, lines[j])),
        scan_from(r, lines, anchor, cursor) matches Some(pr) ==> !(in_scan(
            r,
            lines.len() as int,
            anchor,
            pr.1 + scan_step(r),
        ) && regex_match(w, lines[pr.1 + scan_step(r)])),
    decreases r.limit + 1 - scan_dist(r, anchor, cursor),
{
    let len = lines.len() as int;
    let s = scan_step(r);
    if !in_scan(r, len, anchor, cursor) {
        assert(scan_from(r, lines, anchor, cursor) == Some((anchor, cursor - s)));
        assert(scan_dist(r, anchor, cursor - s) == scan_dist(r, anchor, cursor) - 1);
        assert((cursor - s) + s == cursor);
    } else if !regex_match(w, lines[cursor]) {
        assert(scan_from(r, lines, anchor, cursor) == Some((anchor, cursor - s)));
        assert(scan_dist(r, anchor, cursor - s) == scan_dist(r, anchor, cursor) - 1);
        assert((cursor - s) + s == cursor);
    } else {
        lemma_scan_while_from(r, lines, w, anchor, cursor + s);
        assert(scan_dist(r, anchor, cursor + s) == scan_dist(r, anchor, cursor) + 1);
        match scan_from(r, lines, anchor, cursor + s) {
            None => {}
            Some(pr) => {
                assert(scan_from(r, lines, anchor, cursor) == Some(pr));
                assert forall|j: int|
                    scan_dist(r, anchor, cursor) <= #[trigger] scan_dist(r, anchor, j)
                        <= scan_dist(r, anchor, pr.1) implies in_scan(r, len, anchor, j)
                    && regex_match(w, lines[j]) by {
                    if scan_dist(r, anchor, j) == scan_dist(r, anchor, cursor) {
                        assert(j == cursor);
                        assert(in_scan(r, len, anchor, cursor));
                        assert(regex_match(w, lines[cursor]));
                    } else {
                        assert(scan_dist(r, anchor, cursor + s) <= scan_dist(r, anchor, j)
                            <= scan_dist(r, anchor, pr.1));
                        assert(in_scan(r, len, anchor, j) && regex_match(w, lines[j]));
                    }
                }
            }
        }
    }
}

/// For a rule with only a while pattern, the raw resolved range extends from
/// the anchor exactly through the last consecutive line, in scan direction,
/// that matches the while pattern: it stops expanding at the first non-match
/// or at the corpus or limit boundary.
pub proof fn lemma_while_rule(r: RuleModel, lines: Seq<Seq<char>>, w: Seq<char>, anchor: int)
    requires
        r.stop is None,
        r.while_pat == Some(w),
        0 <= anchor < lines.len(),
    ensures
        match raw_range(r, lines, anchor) {
            None => false,
            Some(pr) => {
                &&& pr.0 == anchor
                &&& scan_dist(r, anchor, pr.1) >= 0
                &&& forall|j: int|
                    1 <= scan_dist(r, anchor, j) <= scan_dist(r, anchor, pr.1) ==> in_scan(
                        r,
                        lines.len() as int,
                        anchor,
                        j,
                    ) && #[trigger] regex_match(w, lines[j])
                &&& !(in_scan(r, lines.len() as int, anchor, pr.1 + scan_step(r)) && regex_match(
                    w,
                    lines[pr.1 + scan_step(r)],
                ))
            },
        },
{
    lemma_scan_while_from(r, lines, w, anchor, anchor + scan_step(r));
    assert(scan_dist(r, anchor, anchor + scan_step(r)) == 1);
}

/// The view of an emitted range list.
pub open spec fn ranges_view(rs: Seq<(usize, usize)>) -> Seq<(int, int)> {
    rs.map_values(|p: (usize, usize)| (p.0 as int, p.1 as int))
}

/// A rule without a start pattern has no anchors and emits nothing.
proof fn lemma_no_start_no_ranges(r: RuleModel, lines: Seq<Seq<char>>, n: int)
    requires
        r.start is None,
    ensures
        rule_ranges_upto(r, lines, n) == Seq::<(int, int)>::empty(),
    decreases n,
{
    if n > 0 {
        lemma_no_start_no_ranges(r, lines, n - 1);
    }
}

/// Clamp a raw endpoint into the corpus `[0, len - 1]`.
fn clamp_index(x: i128, len: usize) -> (r: usize)
    requires
        1 <= len < i64::MAX,
    ensures
        r as int == clamped(x as int, len as int),
{
    if x < 0 {
        0
    } else if x > len as i128 - 1 {
        len - 1
    } else {
        x as usize
    }
}

/// Resolve one rule against the whole corpus: every line matching the start
/// pattern is an independent anchor, and each anchor's emitted range is
/// reported in corpus order.
pub fn resolve_rule(rule: &Rule, lines: &Vec<String>) -> (ranges: Vec<(usize, usize)>)
    requires
        lines@.len() < i64::MAX,
        rule@.limit > 0,
    ensures
        ranges_view(ranges@) == rule_ranges(rule@, lines_view(lines@)),
        forall|j: int|
            0 <= j < ranges@.len() ==> (#[trigger] ranges@[j]).0 < lines@.len() && ranges@[j].1
                <= lines@.len(),
{
    let ghost rm = rule@;
    let ghost lv = lines_view(lines@);
    let mut ranges: Vec<(usize, usize)> = Vec::new();
    match &rule.start {
        None => {
            proof {
                lemma_no_start_no_ranges(rm, lv, lv.len() as int);
            }
            ranges
        }
        Some(startp) => {
            let mut i: usize = 0;
            while i < lines.len()
                invariant
                    lines@.len() < i64::MAX,
                    i <= lines@.len(),
                    rm == rule@,
                    lv == lines_view(lines@),
                    rm.limit > 0,
                    rule.start matches Some(p) && p@ == startp@,
                    ranges_view(ranges@) == rule_ranges_upto(rm, lv, i as int),
                    forall|j: int|
                        0 <= j < ranges@.len() ==> (#[trigger] ranges@[j]).0 < lines@.len()
                            && ranges@[j].1 <= lines@.len(),
                decreases lines@.len() - i,
            {
                let line: &String = &lines[i];
                assert(lv[i as int] == line@);
                if startp.is_match(line.as_str()) {
                    assert(is_anchor(rm, lv, i as int));
                    let sel: Option<(i64, i64)> = if rule.stop.is_some()
                        || rule.while_pat.is_some() {
                        try_select(rule, lines, i as i64)
                    } else {
                        Some((i as i64, i as i64))
                    };
                    assert(pair_view(sel) == raw_range(rm, lv, i as int));
                    match sel {
                        Some((a0, b0)) => {
                            let a = clamp_index(
                                a0 as i128 + rule.start_offset as i128,
                                lines.len(),
                            );
                            let b = clamp_index(b0 as i128 + rule.stop_offset as i128, lines.len());
                            let pr: (usize, usize) = if a0 <= b0 {
                                (a, b + 1)
                            } else {
                                (b, a + 1)
                            };
                            let ghost prev = ranges@;
                            ranges.push(pr);
                            proof {
                                assert(emitted_range(rm, lv, i as int) == Some(
                                    (pr.0 as int, pr.1 as int),
                                ));
                                assert(ranges_view(ranges@) =~= ranges_view(prev).push(
                                    (pr.0 as int, pr.1 as int),
                                ));
                            }
                        }
                        None => {}
                    }
                } else {
                    assert(!is_anchor(rm, lv, i as int));
                }
                i = i + 1;
            }
            ranges
        }
    }
}

} // verus!
