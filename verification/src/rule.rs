//! A selection rule: a start pattern with optional stop / while patterns,
//! a scan direction, offsets and a scan limit.

use vstd::prelude::*;

use crate::pattern::{Pattern, regex_ok};

verus! {

/// The default scan limit of a freshly constructed rule.
pub const DEFAULT_LIMIT: i64 = 1000;

/// The mathematical model of a rule: patterns are identified by their source
/// text, numbers are unbounded.
pub ghost struct RuleModel {
    pub disable: bool,
    pub start: Option<Seq<char>>,
    pub start_offset: int,
    pub stop: Option<Seq<char>>,
    pub stop_offset: int,
    pub while_pat: Option<Seq<char>>,
    pub backward: bool,
    pub limit: int,
}

/// One line-selection rule. Patterns are compiled once at construction;
/// a rule is immutable while it is being resolved.
pub struct Rule {
    pub disable: bool,
    pub start: Option<Pattern>,
    pub start_offset: i64,
    pub stop: Option<Pattern>,
    pub stop_offset: i64,
    pub while_pat: Option<Pattern>,
    pub backward: bool,
    pub limit: i64,
}

pub open spec fn pattern_view(p: Option<Pattern>) -> Option<Seq<char>> {
    match p {
        Some(pat) => Some(pat@),
        None => None,
    }
}

impl View for Rule {
    type V = RuleModel;

    open spec fn view(&self) -> RuleModel {
        RuleModel {
            disable: self.disable,
            start: pattern_view(self.start),
            start_offset: self.start_offset as int,
            stop: pattern_view(self.stop),
            stop_offset: self.stop_offset as int,
            while_pat: pattern_view(self.while_pat),
            backward: self.backward,
            limit: self.limit as int,
        }
    }
}

/// The model of a freshly constructed rule: no patterns, forward, default
/// limit, enabled.
pub open spec fn fresh_rule_model() -> RuleModel {
    RuleModel {
        disable: false,
        start: None,
        start_offset: 0,
        stop: None,
        stop_offset: 0,
        while_pat: None,
        backward: false,
        limit: DEFAULT_LIMIT as int,
    }
}

/// The start pattern of the implicit fallback rule: the word "error" with a
/// word boundary on both sides.
pub open spec fn fallback_start_pattern() -> Seq<char> {
    "\\berror\\b"@
}

/// The model of the implicit fallback rule used when no configuration
/// produced any active rule.
pub open spec fn fallback_rule_model() -> RuleModel {
    RuleModel { start: Some(fallback_start_pattern()), ..fresh_rule_model() }
}

impl Rule {
    /// A fresh rule with every field at its default.
    pub fn new() -> (r: Rule)
        ensures
            r@ == fresh_rule_model(),
    {
        Rule {
            disable: false,
            start: None,
            start_offset: 0,
            stop: None,
            stop_offset: 0,
            while_pat: None,
            backward: false,
            limit: DEFAULT_LIMIT,
        }
    }

    /// Compile `pattern` and install it as the start pattern; reports whether
    /// the pattern source was accepted, and changes nothing when it was not.
    pub fn set_start(&mut self, pattern: &str) -> (ok: bool)
        ensures
            ok == regex_ok(pattern@),
            ok ==> final(self)@ == (RuleModel { start: Some(pattern@), ..old(self)@ }),
            !ok ==> final(self)@ == old(self)@,
    {
        match Pattern::compile(pattern) {
            Some(p) => {
                self.start = Some(p);
                true
            }
            None => false,
        }
    }

    /// Compile `pattern` and install it as the stop pattern; reports whether
    /// the pattern source was accepted, and changes nothing when it was not.
    pub fn set_stop(&mut self, pattern: &str) -> (ok: bool)
        ensures
            ok == regex_ok(pattern@),
            ok ==> final(self)@ == (RuleModel { stop: Some(pattern@), ..old(self)@ }),
            !ok ==> final(self)@ == old(self)@,
    {
        match Pattern::compile(pattern) {
            Some(p) => {
                self.stop = Some(p);
                true
            }
            None => false,
        }
    }

    /// Compile `pattern` and install it as the while pattern; reports whether
    /// the pattern source was accepted, and changes nothing when it was not.
    pub fn set_while(&mut self, pattern: &str) -> (ok: bool)
        ensures
            ok == regex_ok(pattern@),
            ok ==> final(self)@ == (RuleModel { while_pat: Some(pattern@), ..old(self)@ }),
            !ok ==> final(self)@ == old(self)@,
    {
        match Pattern::compile(pattern) {
            Some(p) => {
                self.while_pat = Some(p);
                true
            }
            None => false,
        }
    }

    pub fn set_backward(&mut self, backward: bool)
        ensures
            final(self)@ == (RuleModel { backward: backward, ..old(self)@ }),
    {
        self.backward = backward;
    }

    pub fn set_start_offset(&mut self, offset: i64)
        ensures
            final(self)@ == (RuleModel { start_offset: offset as int, ..old(self)@ }),
    {
        self.start_offset = offset;
    }

    pub fn set_stop_offset(&mut self, offset: i64)
        ensures
            final(self)@ == (RuleModel { stop_offset: offset as int, ..old(self)@ }),
    {
        self.stop_offset = offset;
    }

    pub fn set_limit(&mut self, limit: i64)
        requires
            limit > 0,
        ensures
            final(self)@ == (RuleModel { limit: limit as int, ..old(self)@ }),
    {
        self.limit = limit;
    }

    pub fn set_disable(&mut self, disable: bool)
        ensures
            final(self)@ == (RuleModel { disable: disable, ..old(self)@ }),
    {
        self.disable = disable;
    }
}

/// The fallback rule itself, when its pattern compiles (the source is a fixed
/// literal, so in practice it always does).
pub fn fallback_rule() -> (r: Option<Rule>)
    ensures
        r is Some <==> regex_ok(fallback_start_pattern()),
        r matches Some(rule) ==> rule@ == fallback_rule_model(),
{
    let mut rule = Rule::new();
    if rule.set_start("\\berror\\b") {
        Some(rule)
    } else {
        None
    }
}

/// The view of a whole rule list.
pub open spec fn rules_view(rules: Seq<Rule>) -> Seq<RuleModel> {
    rules.map_values(|r: Rule| r@)
}

/// When `rules` is empty, fall back to the one implicit rule; otherwise keep
/// `rules` exactly as they are.
pub fn with_fallback(rules: Vec<Rule>) -> (r: Vec<Rule>)
    ensures
        rules@.len() > 0 ==> r@ == rules@,
        rules@.len() == 0 && regex_ok(fallback_start_pattern()) ==> rules_view(r@)
            == seq![fallback_rule_model()],
        rules@.len() == 0 && !regex_ok(fallback_start_pattern()) ==> r@.len() == 0,
{
    if rules.len() == 0 {
        match fallback_rule() {
            Some(rule) => {
                let mut out: Vec<Rule> = Vec::new();
                out.push(rule);
                proof {
                    assert(rules_view(out@) =~= seq![fallback_rule_model()]);
                }
                out
            }
            None => rules,
        }
    } else {
        rules
    }
}

} // verus!
