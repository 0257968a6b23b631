//! The renderer: walk the corpus in order, emit selected lines, and insert a
//! gap marker wherever the selection is non-contiguous.

use vstd::prelude::*;

use vstd::string::StringExecFns;

use fixedbitset::FixedBitSet;

use crate::resolve::lines_view;
use crate::rule::{Rule, RuleModel, rules_view};
use crate::select::{bitset_bits, bitset_contains, bitset_size, select_all, selection_of};

verus! {

/// The literal block emitted between non-adjacent selected stretches.
pub open spec fn gap_marker() -> Seq<char> {
    "\n... ... ...\n\n"@
}

pub open spec fn newline() -> Seq<char> {
    "\n"@
}

/// The rendered text from line `k` on, where `prev` is one past the last
/// selected index already emitted (0 when nothing was emitted yet): each
/// selected line is emitted with a terminating newline, preceded by the gap
/// marker when it does not directly follow the previous emission.
pub open spec fn render_from(lines: Seq<Seq<char>>, sel: Set<int>, k: int, prev: int) -> Seq<char>
    decreases lines.len() - k,
{
    if k >= lines.len() {
        Seq::empty()
    } else if sel.contains(k) {
        let marker = if prev > 0 && k + 1 - prev > 1 {
            gap_marker()
        } else {
            Seq::empty()
        };
        marker + lines[k] + newline() + render_from(lines, sel, k + 1, k + 1)
    } else {
        render_from(lines, sel, k + 1, prev)
    }
}

/// The whole rendered text for a corpus and a selection set.
pub open spec fn render_spec(lines: Seq<Seq<char>>, sel: Set<int>) -> Seq<char> {
    render_from(lines, sel, 0, 0)
}

/// Walk the corpus in order and emit every selected line, with the gap
/// marker between non-adjacent selected stretches.
pub fn render(lines: &Vec<String>, bits: &FixedBitSet) -> (out: String)
    requires
        bitset_size(*bits) == lines@.len(),
    ensures
        out@ == render_spec(lines_view(lines@), bitset_bits(*bits)),
{
    let ghost lv = lines_view(lines@);
    let ghost sel = bitset_bits(*bits);
    let mut out = String::new();
    let mut prev: usize = 0;
    let mut k: usize = 0;
    proof {
        assert(out@ + render_from(lv, sel, 0, 0) =~= render_from(lv, sel, 0, 0));
    }
    while k < lines.len()
        invariant
            bitset_size(*bits) == lines@.len(),
            lv == lines_view(lines@),
            sel == bitset_bits(*bits),
            k <= lines@.len(),
            prev <= k,
            render_spec(lv, sel) == out@ + render_from(lv, sel, k as int, prev as int),
        decreases lines@.len() - k,
    {
        if bitset_contains(bits, k) {
            let ghost out0 = out@;
            let ghost marker: Seq<char> = if prev > 0 && k + 1 - prev > 1 {
                gap_marker()
            } else {
                Seq::empty()
            };
            if prev > 0 && k + 1 - prev > 1 {
                out.append("\n... ... ...\n\n");
            }
            out.append(lines[k].as_str());
            out.append("\n");
            proof {
                assert(lv[k as int] == lines@[k as int]@);
                assert(out@ =~= out0 + marker + lv[k as int] + newline());
                assert(out0 + render_from(lv, sel, k as int, prev as int) =~= out@ + render_from(
                    lv,
                    sel,
                    k as int + 1,
                    k as int + 1,
                ));
            }
            prev = k + 1;
        }
        k = k + 1;
    }
    out
}

/// Resolve every rule against the corpus, union all selections, and render
/// the result: the whole engine as one pure transform.
pub fn logselect(rules: &Vec<Rule>, lines: &Vec<String>) -> (out: String)
    requires
        lines@.len() < i64::MAX,
        forall|k: int| 0 <= k < rules@.len() ==> (#[trigger] rules@[k])@.limit > 0,
    ensures
        out@ == render_spec(
            lines_view(lines@),
            selection_of(rules_view(rules@), lines_view(lines@)),
        ),
{
    let bits = select_all(rules, lines);
    render(lines, &bits)
}

/// Idempotence: the rendered output is a pure function of the rules and the
/// corpus, so two runs over the same inputs yield identical output.
pub proof fn lemma_output_idempotent(
    out1: Seq<char>,
    out2: Seq<char>,
    rules: Seq<RuleModel>,
    lines: Seq<Seq<char>>,
)
    requires
        out1 == render_spec(lines, selection_of(rules, lines)),
        out2 == render_spec(lines, selection_of(rules, lines)),
    ensures
        out1 == out2,
{
}

} // verus!
