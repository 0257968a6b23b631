//! Rule construction from a configuration table: a tagged key-value tree
//! with an explicit recursion into nested sub-tables, each leaf table with a
//! start pattern defining one independent rule.

use vstd::prelude::*;

use crate::pattern::regex_ok;
use crate::rule::{fresh_rule_model, rules_view, Rule, RuleModel};

verus! {

/// One configuration value: a tagged union of the shapes a table entry can
/// take.
pub enum ConfigValue {
    Boolean(bool),
    Integer(i64),
    Text(String),
    Table(Vec<(String, ConfigValue)>),
}

/// A fatal configuration error, identifying the offending key or value.
#[derive(Debug)]
pub enum ConfigError {
    /// A recognized key carries a value of the wrong type.
    WrongType { key: String },
    /// A pattern key carries a source that the regex engine rejects.
    BadPattern { key: String, pattern: String },
    /// The direction value is none of the recognized aliases.
    BadDirection { value: String },
    /// The limit is not a positive integer.
    BadLimit,
    /// An unrecognized key whose value is not a nested table.
    UnknownKey { key: String },
}

/// The model of a configuration error, over character sequences.
pub ghost enum ConfigIssue {
    WrongType { key: Seq<char> },
    BadPattern { key: Seq<char>, pattern: Seq<char> },
    BadDirection { value: Seq<char> },
    BadLimit,
    UnknownKey { key: Seq<char> },
}

impl View for ConfigError {
    type V = ConfigIssue;

    open spec fn view(&self) -> ConfigIssue {
        match self {
            ConfigError::WrongType { key } => ConfigIssue::WrongType { key: key@ },
            ConfigError::BadPattern { key, pattern } => ConfigIssue::BadPattern {
                key: key@,
                pattern: pattern@,
            },
            ConfigError::BadDirection { value } => ConfigIssue::BadDirection { value: value@ },
            ConfigError::BadLimit => ConfigIssue::BadLimit,
            ConfigError::UnknownKey { key } => ConfigIssue::UnknownKey { key: key@ },
        }
    }
}

pub open spec fn forward_alias(s: Seq<char>) -> bool {
    s == "forward"@ || s == "fwd"@ || s == "down"@
}

pub open spec fn backward_alias(s: Seq<char>) -> bool {
    s == "backward"@ || s == "backwards"@ || s == "back"@ || s == "up"@
}

/// The rules a finished table contributes: its own rule, unless it is
/// disabled or lacks a start pattern.
pub open spec fn active_of(r: RuleModel) -> Seq<RuleModel> {
    if !r.disable && r.start is Some {
        seq![r]
    } else {
        Seq::empty()
    }
}

/// The outcome of processing the first `n` entries of one table, in order:
/// the rule under construction and the rules contributed by nested
/// sub-tables, or the first fatal error met.
pub open spec fn parse_entries(entries: Seq<(String, ConfigValue)>, n: int) -> Result<
    (RuleModel, Seq<RuleModel>),
    ConfigIssue,
>
    decreases entries, n,
{
    if n <= 0 || entries.len() < n {
        Ok((fresh_rule_model(), Seq::empty()))
    } else {
        match parse_entries(entries, n - 1) {
            Err(e) => Err(e),
            Ok((rule, subs)) => {
                let key = entries[n - 1].0@;
                let value = entries[n - 1].1;
                if key == "disable"@ {
                    match value {
                        ConfigValue::Boolean(b) => Ok((RuleModel { disable: b, ..rule }, subs)),
                        _ => Err(ConfigIssue::WrongType { key }),
                    }
                } else if key == "start"@ {
                    match value {
                        ConfigValue::Text(s) => if regex_ok(s@) {
                            Ok((RuleModel { start: Some(s@), ..rule }, subs))
                        } else {
                            Err(ConfigIssue::BadPattern { key, pattern: s@ })
                        },
                        _ => Err(ConfigIssue::WrongType { key }),
                    }
                } else if key == "start_offset"@ {
                    match value {
                        ConfigValue::Integer(ofs) => Ok(
                            (RuleModel { start_offset: ofs as int, ..rule }, subs),
                        ),
                        _ => Err(ConfigIssue::WrongType { key }),
                    }
                } else if key == "stop"@ {
                    match value {
                        ConfigValue::Text(s) => if regex_ok(s@) {
                            Ok((RuleModel { stop: Some(s@), ..rule }, subs))
                        } else {
                            Err(ConfigIssue::BadPattern { key, pattern: s@ })
                        },
                        _ => Err(ConfigIssue::WrongType { key }),
                    }
                } else if key == "stop_offset"@ {
                    match value {
                        ConfigValue::Integer(ofs) => Ok(
                            (RuleModel { stop_offset: ofs as int, ..rule }, subs),
                        ),
                        _ => Err(ConfigIssue::WrongType { key }),
                    }
                } else if key == "while"@ {
                    match value {
                        ConfigValue::Text(s) => if regex_ok(s@) {
                            Ok((RuleModel { while_pat: Some(s@), ..rule }, subs))
                        } else {
                            Err(ConfigIssue::BadPattern { key, pattern: s@ })
                        },
                        _ => Err(ConfigIssue::WrongType { key }),
                    }
                } else if key == "direction"@ {
                    match value {
                        ConfigValue::Text(s) => if forward_alias(s@) {
                            Ok((RuleModel { backward: false, ..rule }, subs))
                        } else if backward_alias(s@) {
                            Ok((RuleModel { backward: true, ..rule }, subs))
                        } else {
                            Err(ConfigIssue::BadDirection { value: s@ })
                        },
                        _ => Err(ConfigIssue::WrongType { key }),
                    }
                } else if key == "limit"@ {
                    match value {
                        ConfigValue::Integer(lim) => if lim > 0 {
                            Ok((RuleModel { limit: lim as int, ..rule }, subs))
                        } else {
                            Err(ConfigIssue::BadLimit)
                        },
                        _ => Err(ConfigIssue::BadLimit),
                    }
                } else {
                    match value {
                        ConfigValue::Table(t) => {
                            proof {
                                assert(decreases_to!(entries => entries[n - 1]));
                                assert(decreases_to!(entries[n - 1] => entries[n - 1].1));
                                assert(decreases_to!(entries[n - 1].1 => t));
                                assert(decreases_to!(t => t@));
                            }
                            match parse_entries(t@, t@.len() as int) {
                                Err(e) => Err(e),
                                Ok((srule, ssubs)) => Ok((rule, subs + ssubs + active_of(srule))),
                            }
                        }
                        _ => Err(ConfigIssue::UnknownKey { key }),
                    }
                }
            }
        }
    }
}

/// What one whole configuration table contributes: the rules of its nested
/// sub-tables in traversal order, then its own rule if active — or the first
/// fatal error.
pub open spec fn table_rules(entries: Seq<(String, ConfigValue)>) -> Result<
    Seq<RuleModel>,
    ConfigIssue,
> {
    match parse_entries(entries, entries.len() as int) {
        Err(e) => Err(e),
        Ok((rule, subs)) => Ok(subs + active_of(rule)),
    }
}

/// Once one entry fails, the whole table fails with that error.
proof fn lemma_parse_err_propagates(entries: Seq<(String, ConfigValue)>, m: int, e: ConfigIssue)
    requires
        0 <= m <= entries.len(),
        parse_entries(entries, m) == Err::<(RuleModel, Seq<RuleModel>), ConfigIssue>(e),
    ensures
        parse_entries(entries, entries.len() as int) == Err::<
            (RuleModel, Seq<RuleModel>),
            ConfigIssue,
        >(e),
    decreases entries.len() - m,
{
    if m < entries.len() {
        lemma_parse_err_propagates(entries, m + 1, e);
    }
}

/// Every rule a table produces is active and scannable: it has a start
/// pattern, is not disabled, and keeps a positive limit.
proof fn lemma_parse_entries_wf(entries: Seq<(String, ConfigValue)>, n: int)
    ensures
        parse_entries(entries, n) matches Ok(pr) ==> pr.0.limit > 0 && (forall|i: int|
            0 <= i < pr.1.len() ==> (#[trigger] pr.1[i]).limit > 0 && pr.1[i].start is Some
                && !pr.1[i].disable),
    decreases entries, n,
{
    if n <= 0 || entries.len() < n {
    } else {
        lemma_parse_entries_wf(entries, n - 1);
        match parse_entries(entries, n - 1) {
            Err(e) => {}
            Ok((rule, subs)) => {
                let key = entries[n - 1].0@;
                let value = entries[n - 1].1;
                match value {
                    ConfigValue::Table(t) => {
                        assert(decreases_to!(entries => entries[n - 1]));
                        assert(decreases_to!(entries[n - 1] => entries[n - 1].1));
                        assert(decreases_to!(entries[n - 1].1 => t));
                        assert(decreases_to!(t => t@));
                        lemma_parse_entries_wf(t@, t@.len() as int);
                    }
                    _ => {}
                }
            }
        }
    }
}

/// Relies on `<str as PartialEq>::eq`: equality of two strings is equality
/// of their character sequences.
#[verifier::external_body]
fn str_eq(a: &str, b: &str) -> (r: bool)
    ensures
        r == (a@ == b@),
{
    a == b
}

/// Build the rules one configuration table defines, recursing into nested
/// sub-tables, exactly as `table_rules` describes: the first offending entry
/// aborts with its error.
pub fn rules_from_table(entries: &Vec<(String, ConfigValue)>) -> (r: Result<Vec<Rule>, ConfigError>)
    ensures
        r matches Ok(v) ==> table_rules(entries@) matches Ok(ms) && rules_view(v@) == ms,
        r matches Ok(v) ==> forall|i: int|
            0 <= i < v@.len() ==> (#[trigger] v@[i])@.limit > 0 && v@[i]@.start is Some
                && !v@[i]@.disable,
        r matches Err(e) ==> table_rules(entries@) matches Err(ie) && e@ == ie,
    decreases entries@,
{
    let ghost ent = entries@;
    let mut rule = Rule::new();
    let mut subs: Vec<Rule> = Vec::new();
    proof {
        assert(rules_view(subs@) =~= Seq::<RuleModel>::empty());
    }
    let mut k: usize = 0;
    while k < entries.len()
        invariant
            k <= entries@.len(),
            ent == entries@,
            parse_entries(ent, k as int) == Ok::<(RuleModel, Seq<RuleModel>), ConfigIssue>(
                (rule@, rules_view(subs@)),
            ),
            forall|i: int|
                0 <= i < subs@.len() ==> (#[trigger] subs@[i])@.limit > 0 && subs@[i]@.start
                    is Some && !subs@[i]@.disable,
        decreases entries@.len() - k,
    {
        let ghost prev_rule = rule@;
        let ghost prev_subs = rules_view(subs@);
        let (key, value) = &entries[k];
        assert(ent[k as int].0 == *key && ent[k as int].1 == *value);
        if str_eq(key.as_str(), "disable") {
            match value {
                ConfigValue::Boolean(b) => {
                    rule.set_disable(*b);
                }
                _ => {
                    let err = ConfigError::WrongType { key: key.clone() };
                    proof {
                        lemma_parse_err_propagates(ent, k as int + 1, err@);
                    }
                    return Err(err);
                }
            }
        } else if str_eq(key.as_str(), "start") {
            match value {
                ConfigValue::Text(s) => {
                    if !rule.set_start(s.as_str()) {
                        let err = ConfigError::BadPattern {
                            key: key.clone(),
                            pattern: s.clone(),
                        };
                        proof {
                            lemma_parse_err_propagates(ent, k as int + 1, err@);
                        }
                        return Err(err);
                    }
                }
                _ => {
                    let err = ConfigError::WrongType { key: key.clone() };
                    proof {
                        lemma_parse_err_propagates(ent, k as int + 1, err@);
                    }
                    return Err(err);
                }
            }
        } else if str_eq(key.as_str(), "start_offset") {
            match value {
                ConfigValue::Integer(ofs) => {
                    rule.set_start_offset(*ofs);
                }
                _ => {
                    let err = ConfigError::WrongType { key: key.clone() };
                    proof {
                        lemma_parse_err_propagates(ent, k as int + 1, err@);
                    }
                    return Err(err);
                }
            }
        } else if str_eq(key.as_str(), "stop") {
            match value {
                ConfigValue::Text(s) => {
                    if !rule.set_stop(s.as_str()) {
                        let err = ConfigError::BadPattern {
                            key: key.clone(),
                            pattern: s.clone(),
                        };
                        proof {
                            lemma_parse_err_propagates(ent, k as int + 1, err@);
                        }
                        return Err(err);
                    }
                }
                _ => {
                    let err = ConfigError::WrongType { key: key.clone() };
                    proof {
                        lemma_parse_err_propagates(ent, k as int + 1, err@);
                    }
                    return Err(err);
                }
            }
        } else if str_eq(key.as_str(), "stop_offset") {
            match value {
                ConfigValue::Integer(ofs) => {
                    rule.set_stop_offset(*ofs);
                }
                _ => {
                    let err = ConfigError::WrongType { key: key.clone() };
                    proof {
                        lemma_parse_err_propagates(ent, k as int + 1, err@);
                    }
                    return Err(err);
                }
            }
        } else if str_eq(key.as_str(), "while") {
            match value {
                ConfigValue::Text(s) => {
                    if !rule.set_while(s.as_str()) {
                        let err = ConfigError::BadPattern {
                            key: key.clone(),
                            pattern: s.clone(),
                        };
                        proof {
                            lemma_parse_err_propagates(ent, k as int + 1, err@);
                        }
                        return Err(err);
                    }
                }
                _ => {
                    let err = ConfigError::WrongType { key: key.clone() };
                    proof {
                        lemma_parse_err_propagates(ent, k as int + 1, err@);
                    }
                    return Err(err);
                }
            }
        } else if str_eq(key.as_str(), "direction") {
            match value {
                ConfigValue::Text(s) => {
                    if str_eq(s.as_str(), "forward") || str_eq(s.as_str(), "fwd") || str_eq(
                        s.as_str(),
                        "down",
                    ) {
                        rule.set_backward(false);
                    } else if str_eq(s.as_str(), "backward") || str_eq(s.as_str(), "backwards")
                        || str_eq(s.as_str(), "back") || str_eq(s.as_str(), "up") {
                        rule.set_backward(true);
                    } else {
                        let err = ConfigError::BadDirection { value: s.clone() };
                        proof {
                            lemma_parse_err_propagates(ent, k as int + 1, err@);
                        }
                        return Err(err);
                    }
                }
                _ => {
                    let err = ConfigError::WrongType { key: key.clone() };
                    proof {
                        lemma_parse_err_propagates(ent, k as int + 1, err@);
                    }
                    return Err(err);
                }
            }
        } else if str_eq(key.as_str(), "limit") {
            match value {
                ConfigValue::Integer(lim) => {
                    if *lim > 0 {
                        rule.set_limit(*lim);
                    } else {
                        let err = ConfigError::BadLimit;
                        proof {
                            lemma_parse_err_propagates(ent, k as int + 1, err@);
                        }
                        return Err(err);
                    }
                }
                _ => {
                    let err = ConfigError::BadLimit;
                    proof {
                        lemma_parse_err_propagates(ent, k as int + 1, err@);
                    }
                    return Err(err);
                }
            }
        } else {
            match value {
                ConfigValue::Table(t) => {
                    proof {
                        assert(decreases_to!(ent => ent[k as int]));
                        assert(decreases_to!(ent[k as int] => ent[k as int].1));
                        assert(decreases_to!(ent[k as int].1 => *t));
                        assert(decreases_to!(*t => t@));
                    }
                    match rules_from_table(t) {
                        Ok(mut srules) => {
                            let ghost srv = rules_view(srules@);
                            subs.append(&mut srules);
                            proof {
                                assert(rules_view(subs@) =~= prev_subs + srv);
                                match table_rules(t@) {
                                    Ok(ms) => {
                                        match parse_entries(t@, t@.len() as int) {
                                            Ok((srule, ssubs)) => {
                                                assert(prev_subs + srv =~= prev_subs + ssubs
                                                    + active_of(srule));
                                            }
                                            Err(e) => {
                                                assert(false);
                                            }
                                        }
                                    }
                                    Err(e) => {
                                        assert(false);
                                    }
                                }
                            }
                        }
                        Err(e) => {
                            proof {
                                lemma_parse_err_propagates(ent, k as int + 1, e@);
                            }
                            return Err(e);
                        }
                    }
                }
                _ => {
                    let err = ConfigError::UnknownKey { key: key.clone() };
                    proof {
                        lemma_parse_err_propagates(ent, k as int + 1, err@);
                    }
                    return Err(err);
                }
            }
        }
        k = k + 1;
    }
    let ghost rm_final = rule@;
    let ghost final_subs = rules_view(subs@);
    proof {
        lemma_parse_entries_wf(ent, ent.len() as int);
    }
    let active = !rule.disable && rule.start.is_some();
    if active {
        subs.push(rule);
        proof {
            assert(active_of(rm_final) =~= seq![rm_final]);
            assert(rules_view(subs@) =~= final_subs + active_of(rm_final));
        }
    } else {
        proof {
            assert(active_of(rm_final) =~= Seq::<RuleModel>::empty());
            assert(final_subs + active_of(rm_final) =~= final_subs);
        }
    }
    Ok(subs)
}

} // verus!
