//! The aggregator: run the range resolver for every rule and union all
//! emitted ranges into one selection set over line indices, held in a bitset
//! sized to the corpus.

use vstd::prelude::*;

use fixedbitset::FixedBitSet;

use crate::resolve::{
    lines_view, range_set, ranges_view, rule_ranges, rule_selection, rule_selection_upto,
    anchor_selection, emitted_range, is_anchor, rule_ranges_upto, resolve_rule,
};
use crate::rule::{Rule, RuleModel, rules_view};

verus! {

/// The set of enabled bit positions of a bitset.
pub uninterp spec fn bitset_bits(b: FixedBitSet) -> Set<int>;

/// The number of bits the bitset was created with.
pub uninterp spec fn bitset_size(b: FixedBitSet) -> nat;

#[verifier::external_type_specification]
#[verifier::external_body]
pub struct ExFixedBitSet(FixedBitSet);

/// Relies on `fixedbitset::FixedBitSet::with_capacity`: a bitset of `bits`
/// bits, all initially clear.
#[verifier::external_body]
fn bitset_with_capacity(bits: usize) -> (b: FixedBitSet)
    ensures
        bitset_size(b) == bits,
        bitset_bits(b) == Set::<int>::empty(),
{
    FixedBitSet::with_capacity(bits)
}

/// Relies on `fixedbitset::FixedBitSet::insert`: enables one bit and nothing
/// else; it panics out of bounds, so the bound is required.
#[verifier::external_body]
fn bitset_insert(b: &mut FixedBitSet, bit: usize)
    requires
        bit < bitset_size(*old(b)),
    ensures
        bitset_size(*final(b)) == bitset_size(*old(b)),
        bitset_bits(*final(b)) == bitset_bits(*old(b)).insert(bit as int),
{
    b.insert(bit)
}

/// Relies on `fixedbitset::FixedBitSet::contains`: reports whether one bit is
/// enabled.
#[verifier::external_body]
pub(crate) fn bitset_contains(b: &FixedBitSet, bit: usize) -> (r: bool)
    requires
        bit < bitset_size(*b),
    ensures
        r == bitset_bits(*b).contains(bit as int),
{
    b.contains(bit)
}

/// The union of a list of half-open ranges.
pub open spec fn seq_ranges_set(rs: Seq<(int, int)>) -> Set<int>
    decreases rs.len(),
{
    if rs.len() == 0 {
        Set::empty()
    } else {
        seq_ranges_set(rs.drop_last()).union(range_set(rs.last().0, rs.last().1))
    }
}

/// All line indices selected by a list of rules: the idempotent union of
/// every rule's selection.
pub open spec fn selection_of(rules: Seq<RuleModel>, lines: Seq<Seq<char>>) -> Set<int>
    decreases rules.len(),
{
    if rules.len() == 0 {
        Set::empty()
    } else {
        selection_of(rules.drop_last(), lines).union(rule_selection(rules.last(), lines))
    }
}

proof fn lemma_seq_ranges_set_take(rs: Seq<(int, int)>, j: int)
    requires
        0 <= j < rs.len(),
    ensures
        seq_ranges_set(rs.take(j + 1)) == seq_ranges_set(rs.take(j)).union(
            range_set(rs[j].0, rs[j].1),
        ),
{
    assert(rs.take(j + 1).drop_last() =~= rs.take(j));
    assert(rs.take(j + 1).last() == rs[j]);
}

proof fn lemma_selection_of_take(rules: Seq<RuleModel>, lines: Seq<Seq<char>>, k: int)
    requires
        0 <= k < rules.len(),
    ensures
        selection_of(rules.take(k + 1), lines) == selection_of(rules.take(k), lines).union(
            rule_selection(rules[k], lines),
        ),
{
    assert(rules.take(k + 1).drop_last() =~= rules.take(k));
    assert(rules.take(k + 1).last() == rules[k]);
}

/// The union of the ranges a rule emits is exactly the rule's selection.
pub proof fn lemma_ranges_selection(r: RuleModel, lines: Seq<Seq<char>>, n: int)
    ensures
        seq_ranges_set(rule_ranges_upto(r, lines, n)) == rule_selection_upto(r, lines, n),
    decreases n,
{
    if n <= 0 {
    } else {
        lemma_ranges_selection(r, lines, n - 1);
        let prev = rule_ranges_upto(r, lines, n - 1);
        if is_anchor(r, lines, n - 1) {
            match emitted_range(r, lines, n - 1) {
                None => {
                    assert(rule_selection_upto(r, lines, n - 1).union(Set::empty())
                        =~= rule_selection_upto(r, lines, n - 1));
                }
                Some((lo, hi)) => {
                    assert(prev.push((lo, hi)).drop_last() =~= prev);
                    assert(prev.push((lo, hi)).last() == (lo, hi));
                }
            }
        } else {
            assert(rule_selection_upto(r, lines, n - 1).union(Set::empty())
                =~= rule_selection_upto(r, lines, n - 1));
        }
    }
}

/// Union correctness: resolving two rule lists separately and unioning their
/// selections gives the same set as resolving the concatenated list.
pub proof fn lemma_selection_union(rs1: Seq<RuleModel>, rs2: Seq<RuleModel>, lines: Seq<Seq<char>>)
    ensures
        selection_of(rs1 + rs2, lines) == selection_of(rs1, lines).union(
            selection_of(rs2, lines),
        ),
    decreases rs2.len(),
{
    if rs2.len() == 0 {
        assert(rs1 + rs2 =~= rs1);
        assert(selection_of(rs1, lines).union(Set::empty()) =~= selection_of(rs1, lines));
    } else {
        lemma_selection_union(rs1, rs2.drop_last(), lines);
        assert((rs1 + rs2).drop_last() =~= rs1 + rs2.drop_last());
        assert((rs1 + rs2).last() == rs2.last());
        assert(selection_of(rs1, lines).union(selection_of(rs2.drop_last(), lines)).union(
            rule_selection(rs2.last(), lines),
        ) =~= selection_of(rs1, lines).union(selection_of(rs2, lines)));
    }
}

/// Idempotence of resolution: the selection is a pure function of the rules
/// and the corpus, so resolving the same rules against the same corpus twice
/// yields an identical selection set.
pub proof fn lemma_selection_idempotent(
    sel1: Set<int>,
    sel2: Set<int>,
    rules: Seq<RuleModel>,
    lines: Seq<Seq<char>>,
)
    requires
        sel1 == selection_of(rules, lines),
        sel2 == selection_of(rules, lines),
    ensures
        sel1 == sel2,
{
}

proof fn lemma_rule_selection_in_bounds(r: RuleModel, lines: Seq<Seq<char>>, n: int)
    ensures
        forall|i: int|
            rule_selection_upto(r, lines, n).contains(i) ==> 0 <= i < lines.len(),
    decreases n,
{
    if n > 0 {
        lemma_rule_selection_in_bounds(r, lines, n - 1);
        assert forall|i: int| #[trigger] anchor_selection(r, lines, n - 1).contains(i) implies 0
            <= i < lines.len() by {
            if is_anchor(r, lines, n - 1) {
                match emitted_range(r, lines, n - 1) {
                    None => {}
                    Some((lo, hi)) => {
                        assert(range_set(lo, hi).contains(i));
                        assert(lines.len() >= 1);
                        assert(0 <= lo && hi <= lines.len());
                    }
                }
            }
        }
        assert(rule_selection_upto(r, lines, n) == rule_selection_upto(r, lines, n - 1).union(
            anchor_selection(r, lines, n - 1),
        ));
    }
}

/// Clamping: no selected index ever falls outside the corpus bounds.
pub proof fn lemma_selection_in_bounds(rules: Seq<RuleModel>, lines: Seq<Seq<char>>)
    ensures
        forall|i: int| selection_of(rules, lines).contains(i) ==> 0 <= i < lines.len(),
    decreases rules.len(),
{
    if rules.len() > 0 {
        lemma_selection_in_bounds(rules.drop_last(), lines);
        lemma_rule_selection_in_bounds(rules.last(), lines, lines.len() as int);
        assert(selection_of(rules, lines) == selection_of(rules.drop_last(), lines).union(
            rule_selection(rules.last(), lines),
        ));
    }
}

/// Resolve every rule against the shared corpus and union all emitted ranges
/// into one selection set sized to the corpus length.
pub fn select_all(rules: &Vec<Rule>, lines: &Vec<String>) -> (bits: FixedBitSet)
    requires
        lines@.len() < i64::MAX,
        forall|k: int| 0 <= k < rules@.len() ==> (#[trigger] rules@[k])@.limit > 0,
    ensures
        bitset_size(bits) == lines@.len(),
        bitset_bits(bits) == selection_of(rules_view(rules@), lines_view(lines@)),
{
    let ghost rv = rules_view(rules@);
    let ghost lv = lines_view(lines@);
    let mut bits = bitset_with_capacity(lines.len());
    let mut k: usize = 0;
    while k < rules.len()
        invariant
            lines@.len() < i64::MAX,
            forall|j: int| 0 <= j < rules@.len() ==> (#[trigger] rules@[j])@.limit > 0,
            k <= rules@.len(),
            rv == rules_view(rules@),
            lv == lines_view(lines@),
            bitset_size(bits) == lines@.len(),
            bitset_bits(bits) == selection_of(rv.take(k as int), lv),
        decreases rules@.len() - k,
    {
        let rule: &Rule = &rules[k];
        let ranges = resolve_rule(rule, lines);
        let ghost base = bitset_bits(bits);
        let ghost rrv = ranges_view(ranges@);
        let mut j: usize = 0;
        while j < ranges.len()
            invariant
                j <= ranges@.len(),
                rrv == ranges_view(ranges@),
                rrv == rule_ranges(rule@, lv),
                forall|t: int|
                    0 <= t < ranges@.len() ==> (#[trigger] ranges@[t]).0 < lines@.len()
                        && ranges@[t].1 <= lines@.len(),
                bitset_size(bits) == lines@.len(),
                bitset_bits(bits) == base.union(seq_ranges_set(rrv.take(j as int))),
            decreases ranges@.len() - j,
        {
            let (lo, hi) = ranges[j];
            let ghost mid = bitset_bits(bits);
            let mut i: usize = lo;
            if i >= hi {
                proof {
                    assert(range_set(lo as int, hi as int) =~= Set::<int>::empty());
                    lemma_seq_ranges_set_take(rrv, j as int);
                    assert(mid.union(Set::empty()) =~= mid);
                }
            } else {
                while i < hi
                    invariant
                        lo <= i <= hi,
                        hi <= lines@.len(),
                        bitset_size(bits) == lines@.len(),
                        bitset_bits(bits) == mid.union(range_set(lo as int, i as int)),
                    decreases hi - i,
                {
                    let ghost before = bitset_bits(bits);
                    bitset_insert(&mut bits, i);
                    proof {
                        assert(mid.union(range_set(lo as int, i as int + 1)) =~= before.insert(
                            i as int,
                        ));
                    }
                    i = i + 1;
                }
                proof {
                    lemma_seq_ranges_set_take(rrv, j as int);
                    assert(mid.union(range_set(lo as int, hi as int)) =~= base.union(
                        seq_ranges_set(rrv.take(j as int + 1)),
                    ));
                }
            }
            proof {
                assert(bitset_bits(bits) =~= base.union(seq_ranges_set(rrv.take(j as int + 1))));
            }
            j = j + 1;
        }
        proof {
            assert(rrv.take(rrv.len() as int) =~= rrv);
            lemma_ranges_selection(rule@, lv, lv.len() as int);
            lemma_selection_of_take(rv, lv, k as int);
            assert(rv[k as int] == rule@);
            assert(bitset_bits(bits) =~= selection_of(rv.take(k as int + 1), lv));
        }
        k = k + 1;
    }
    proof {
        assert(rv.take(rv.len() as int) =~= rv);
    }
    bits
}

} // verus!
