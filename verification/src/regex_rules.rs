//! Rules that match names by a regular expression.
use vstd::prelude::*;
use vstd::string::*;

use crate::config::{regex_views, RegexRuleConfig, RegexRuleView};
use crate::lists::{copy_list, copy_texts, has_u32};
use crate::net::{IpAddr, IpNetwork};
use crate::policy::{admits_client, effective_query_selectors, is_selected, longest_prefix, max_prefix,
    parse_scope_networks, scope_admits, scope_networks, selectors, selects, weaker, Action, Decision,
    ErrorView, PolicyError, Precedence, Rank};
use crate::text::{byte_len, decimal, str_len, texts, with_number};

verus! {

pub const MAX_REGEX_RULES: usize = 4_096;

pub const MAX_REGEX_PATTERN_BYTES: usize = 4_096;

/// The memory that one compiled expression may take.
pub const MAX_REGEX_PROGRAM_BYTES: usize = 1_048_576;

// ---- the outside crate ---------------------------------------------------------------

/// A compiled expression of the `regex` crate.
#[verifier::external_type_specification]
#[verifier::external_body]
pub struct ExRegex(regex::Regex);

/// The pattern that an expression was compiled from with the builder's default syntax options;
/// none where other options were set.
pub uninterp spec fn plain_pattern(regex: regex::Regex) -> Option<Seq<char>>;

/// Why `RegexBuilder::build` refuses a pattern, by the pattern, the limit on the program's size in
/// bytes and the word size of the machine, on which that size depends.
pub uninterp spec fn regex_fault(pattern: Seq<char>, limit: usize, word: u32) -> Option<Seq<char>>;

/// Whether an expression with default options finds a match in a text.
pub uninterp spec fn regex_match(pattern: Seq<char>, text: Seq<char>) -> bool;

/// `RegexBuilder::build` with the size limit and the lazy-DFA cache limit set, and every other
/// option as the crate has it. Whether it succeeds, and the text of the error, are taken to
/// depend on the pattern, the limit and the machine's word size alone; a compiled expression
/// carries its pattern.
#[verifier::external_body]
fn build_regex(pattern: &str, limit: usize) -> (r: Result<regex::Regex, String>)
    ensures
        match regex_fault(pattern@, limit, usize::BITS) {
            Some(reason) => r is Err && r->Err_0@ == reason,
            None => r is Ok && plain_pattern(r->Ok_0) == Some(pattern@),
        },
{
    regex::RegexBuilder::new(pattern)
        .size_limit(limit)
        .dfa_size_limit(limit)
        .build()
        .map_err(|error| error.to_string())
}

/// `Regex::is_match`. Whether there is a match is taken to depend on the pattern and the text
/// alone.
#[verifier::external_body]
fn is_match(regex: &regex::Regex, text: &str) -> (r: bool)
    requires
        plain_pattern(*regex) is Some,
    ensures
        r == regex_match(plain_pattern(*regex)->0, text@),
{
    regex.is_match(text)
}

// ---- rules ---------------------------------------------------------------------------

/// A checked rule, without its compiled expression.
pub struct RegexRule {
    pub enabled: bool,
    pub id: u32,
    pub pattern: String,
    pub action: Action,
    pub priority: i32,
    pub qtype: Option<u16>,
    pub qtypes: Vec<u16>,
    pub qclass: Option<u16>,
    pub qclasses: Vec<u16>,
    pub client: Option<IpAddr>,
    pub client_networks: Vec<IpNetwork>,
    pub client_cidrs: Vec<String>,
}

/// The value of a checked rule.
pub struct RegexMeaning {
    pub enabled: bool,
    pub id: u32,
    pub pattern: Seq<char>,
    pub action: Action,
    pub priority: i32,
    pub qtype: Option<u16>,
    pub qtypes: Seq<u16>,
    pub qclass: Option<u16>,
    pub qclasses: Seq<u16>,
    pub client: Option<IpAddr>,
    pub networks: Seq<IpNetwork>,
    pub client_cidrs: Seq<Seq<char>>,
}

impl View for RegexRule {
    type V = RegexMeaning;

    open spec fn view(&self) -> RegexMeaning {
        RegexMeaning {
            enabled: self.enabled,
            id: self.id,
            pattern: self.pattern@,
            action: self.action,
            priority: self.priority,
            qtype: self.qtype,
            qtypes: self.qtypes@,
            qclass: self.qclass,
            qclasses: self.qclasses@,
            client: self.client,
            networks: self.client_networks@,
            client_cidrs: texts(self.client_cidrs@),
        }
    }
}

pub open spec fn regex_meanings(rules: Seq<RegexRule>) -> Seq<RegexMeaning> {
    Seq::new(rules.len(), |i: int| rules[i]@)
}

/// What a rule means once its pattern has been compiled; `fault` is why it could not be.
pub open spec fn regex_meaning(rule: RegexRuleView, fault: Option<Seq<char>>) -> Result<
    RegexMeaning,
    ErrorView,
> {
    match fault {
        Some(reason) => Err(ErrorView::InvalidRegex { id: rule.id, reason }),
        None => match selectors(rule.id, rule.qtype, rule.qtypes, "qtype"@) {
            Err(error) => Err(error),
            Ok(qtypes) => match selectors(rule.id, rule.qclass, rule.qclasses, "qclass"@) {
                Err(error) => Err(error),
                Ok(qclasses) => match scope_networks(rule.id, rule.client, rule.client_cidrs) {
                    Err(error) => Err(error),
                    Ok(networks) => Ok(
                        RegexMeaning {
                            enabled: rule.enabled,
                            id: rule.id,
                            pattern: rule.pattern,
                            action: rule.action,
                            priority: rule.priority,
                            qtype: rule.qtype,
                            qtypes,
                            qclass: rule.qclass,
                            qclasses,
                            client: rule.client,
                            networks,
                            client_cidrs: rule.client_cidrs,
                        },
                    ),
                },
            },
        },
    }
}

/// Checks what a rule says beside its pattern, given why the pattern could not be compiled.
pub fn assemble_regex_rule(rule: &RegexRuleConfig, fault: Option<String>) -> (r: Result<
    RegexRule,
    PolicyError,
>)
    ensures
        match regex_meaning(
            rule@,
            match fault {
                Some(reason) => Some(reason@),
                None => None,
            },
        ) {
            Ok(value) => r is Ok && r->Ok_0@ == value,
            Err(error) => r is Err && r->Err_0@ == error,
        },
{
    match fault {
        Some(reason) => {
            return Err(PolicyError::InvalidRegex { id: rule.id, reason });
        },
        None => {},
    }
    let qtypes = match effective_query_selectors(rule.id, rule.qtype, &rule.qtypes, "qtype") {
        Ok(list) => list,
        Err(error) => {
            return Err(error);
        },
    };
    let qclasses = match effective_query_selectors(rule.id, rule.qclass, &rule.qclasses, "qclass") {
        Ok(list) => list,
        Err(error) => {
            return Err(error);
        },
    };
    let networks = match parse_scope_networks(rule.id, rule.client, &rule.client_cidrs) {
        Ok(list) => list,
        Err(error) => {
            return Err(error);
        },
    };
    Ok(
        RegexRule {
            enabled: rule.enabled,
            id: rule.id,
            pattern: rule.pattern.clone(),
            action: rule.action,
            priority: rule.priority,
            qtype: rule.qtype,
            qtypes,
            qclass: rule.qclass,
            qclasses,
            client: rule.client,
            client_networks: networks,
            client_cidrs: copy_texts(&rule.client_cidrs),
        },
    )
}

/// Whether the number is taken: by a domain rule or by one of the rules.
pub open spec fn regex_id_taken(taken: Seq<u32>, rules: Seq<RegexRuleView>, id: u32) -> bool {
    taken.contains(id) || exists|i: int| 0 <= i < rules.len() && (#[trigger] rules[i]).id == id
}

/// Why the pattern of a rule cannot be compiled.
pub open spec fn rule_fault(rule: RegexRuleView) -> Option<Seq<char>> {
    regex_fault(rule.pattern, MAX_REGEX_PROGRAM_BYTES, usize::BITS)
}

/// The checked rules, or the first error.
pub open spec fn checked_rules(rules: Seq<RegexRuleView>, taken: Seq<u32>) -> Result<
    Seq<RegexMeaning>,
    ErrorView,
>
    decreases rules.len(),
{
    if rules.len() == 0 {
        Ok(Seq::empty())
    } else {
        let rule = rules.last();
        match checked_rules(rules.drop_last(), taken) {
            Err(error) => Err(error),
            Ok(list) => if byte_len(rule.pattern) > MAX_REGEX_PATTERN_BYTES {
                Err(
                    ErrorView::InvalidRegex {
                        id: rule.id,
                        reason: "pattern exceeds "@ + decimal(MAX_REGEX_PATTERN_BYTES as nat)
                            + " bytes"@,
                    },
                )
            } else if regex_id_taken(taken, rules.drop_last(), rule.id) {
                Err(ErrorView::DuplicateRule { id: rule.id })
            } else {
                match regex_meaning(rule, rule_fault(rule)) {
                    Err(error) => Err(error),
                    Ok(value) => Ok(list.push(value)),
                }
            },
        }
    }
}

/// What a list of rules compiles to. `taken` are the numbers of the domain rules.
pub open spec fn compiled_regex(rules: Seq<RegexRuleView>, taken: Seq<u32>) -> Result<
    Seq<RegexMeaning>,
    ErrorView,
> {
    if rules.len() > MAX_REGEX_RULES {
        Err(ErrorView::TooManyRegexRules { max: MAX_REGEX_RULES })
    } else {
        checked_rules(rules, taken)
    }
}

proof fn checked_rules_error_stays(rules: Seq<RegexRuleView>, taken: Seq<u32>, n: int)
    requires
        0 <= n <= rules.len(),
        checked_rules(rules.take(n), taken) is Err,
    ensures
        checked_rules(rules, taken) == checked_rules(rules.take(n), taken),
    decreases rules.len(),
{
    if n == rules.len() {
        assert(rules.take(n) =~= rules);
    } else {
        assert(rules.drop_last().take(n) =~= rules.take(n));
        checked_rules_error_stays(rules.drop_last(), taken, n);
    }
}

/// Compiled rules, ready to match.
pub struct RegexRules {
    pub rules: Vec<RegexRule>,
    pub patterns: Vec<regex::Regex>,
}

impl View for RegexRules {
    type V = Seq<RegexMeaning>;

    open spec fn view(&self) -> Seq<RegexMeaning> {
        regex_meanings(self.rules@)
    }
}

impl RegexRules {
    /// Each rule has the compiled form of its own pattern.
    pub open spec fn wf(&self) -> bool {
        &&& self.rules@.len() == self.patterns@.len()
        &&& forall|i: int|
            0 <= i < self.rules@.len() ==> plain_pattern(#[trigger] self.patterns@[i]) == Some(
                self.rules@[i].pattern@,
            )
    }
}

fn id_taken(taken: &[u32], rules: &[RegexRuleConfig], count: usize, id: u32) -> (r: bool)
    requires
        count <= rules@.len(),
    ensures
        r == regex_id_taken(taken@, regex_views(rules@).take(count as int), id),
{
    if has_u32(taken, id) {
        return true;
    }
    let ghost all = regex_views(rules@).take(count as int);
    let mut i: usize = 0;
    while i < count
        invariant
            i <= count <= rules@.len(),
            all == regex_views(rules@).take(count as int),
            forall|k: int| 0 <= k < i ==> (#[trigger] all[k]).id != id,
        decreases count - i,
    {
        assert(all[i as int] == rules[i as int]@);
        if rules[i].id == id {
            return true;
        }
        i = i + 1;
    }
    false
}

/// Compiles a list of rules. `taken` are the numbers of the domain rules, which a rule here may
/// not repeat.
pub fn compile_regex_rules(configs: &[RegexRuleConfig], taken: &[u32]) -> (r: Result<
    RegexRules,
    PolicyError,
>)
    ensures
        match compiled_regex(regex_views(configs@), taken@) {
            Ok(rules) => r is Ok && r->Ok_0@ == rules && r->Ok_0.wf(),
            Err(error) => r is Err && r->Err_0@ == error,
        },
{
    let ghost all = regex_views(configs@);
    if configs.len() > MAX_REGEX_RULES {
        return Err(PolicyError::TooManyRegexRules { max: MAX_REGEX_RULES });
    }
    let mut out = RegexRules { rules: Vec::new(), patterns: Vec::new() };
    let mut i: usize = 0;
    assert(out@ =~= Seq::<RegexMeaning>::empty());
    while i < configs.len()
        invariant
            i <= configs.len() <= MAX_REGEX_RULES,
            all == regex_views(configs@),
            out.wf(),
            checked_rules(all.take(i as int), taken@) == Ok::<Seq<RegexMeaning>, ErrorView>(out@),
        decreases configs.len() - i,
    {
        let rule = &configs[i];
        let ghost next = all.take(i as int + 1);
        proof {
            assert(next.drop_last() =~= all.take(i as int));
            assert(next.last() == rule@);
            if checked_rules(next, taken@) is Err {
                checked_rules_error_stays(all, taken@, i as int + 1);
            }
        }
        if str_len(rule.pattern.as_str()) > MAX_REGEX_PATTERN_BYTES {
            return Err(
                PolicyError::InvalidRegex {
                    id: rule.id,
                    reason: with_number(
                        "pattern exceeds ",
                        MAX_REGEX_PATTERN_BYTES as u64,
                        " bytes",
                    ),
                },
            );
        }
        if id_taken(taken, configs, i, rule.id) {
            return Err(PolicyError::DuplicateRule { id: rule.id });
        }
        let pattern = match build_regex(rule.pattern.as_str(), MAX_REGEX_PROGRAM_BYTES) {
            Ok(pattern) => pattern,
            Err(reason) => {
                return Err(PolicyError::InvalidRegex { id: rule.id, reason });
            },
        };
        match assemble_regex_rule(rule, None) {
            Ok(value) => {
                let ghost before = out@;
                out.rules.push(value);
                out.patterns.push(pattern);
                assert(out@ =~= before.push(value@));
            },
            Err(error) => {
                return Err(error);
            },
        }
        i = i + 1;
    }
    assert(all.take(i as int) =~= all);
    Ok(out)
}

/// A rule as it is listed, and as a change of the rules starts from it: with the selectors in
/// force.
pub open spec fn published_rule(rule: RegexMeaning) -> RegexRuleView {
    RegexRuleView {
        enabled: rule.enabled,
        id: rule.id,
        pattern: rule.pattern,
        action: rule.action,
        priority: rule.priority,
        qtype: rule.qtype,
        qtypes: rule.qtypes,
        qclass: rule.qclass,
        qclasses: rule.qclasses,
        client: rule.client,
        client_cidrs: rule.client_cidrs,
    }
}

pub open spec fn published_rules(rules: Seq<RegexMeaning>) -> Seq<RegexRuleView> {
    Seq::new(rules.len(), |i: int| published_rule(rules[i]))
}

impl RegexRules {
    /// The rules as they are listed.
    pub fn regex_rule_configs(&self) -> (r: Vec<RegexRuleConfig>)
        ensures
            regex_views(r@) == published_rules(self@),
    {
        let ghost all = published_rules(self@);
        let mut out: Vec<RegexRuleConfig> = Vec::new();
        let mut i: usize = 0;
        while i < self.rules.len()
            invariant
                i <= self.rules.len(),
                all == published_rules(self@),
                regex_views(out@) == all.take(i as int),
            decreases self.rules.len() - i,
        {
            let rule = &self.rules[i];
            let ghost before = regex_views(out@);
            let config = RegexRuleConfig {
                enabled: rule.enabled,
                id: rule.id,
                pattern: rule.pattern.clone(),
                action: rule.action,
                priority: rule.priority,
                qtype: rule.qtype,
                qtypes: copy_list(&rule.qtypes),
                qclass: rule.qclass,
                qclasses: copy_list(&rule.qclasses),
                client: rule.client,
                client_cidrs: copy_texts(&rule.client_cidrs),
            };
            assert(self@[i as int] == rule@);
            assert(config@ == all[i as int]);
            out.push(config);
            assert(regex_views(out@) =~= before.push(config@));
            i = i + 1;
            assert(regex_views(out@) =~= all.take(i as int));
        }
        assert(all.take(i as int) =~= all);
        out
    }
}

/// Selectors as they are listed: a single one stands in the list too.
pub open spec fn listed_selectors(single: Option<u16>, many: Seq<u16>) -> bool {
    single is Some ==> many == seq![single->0]
}

/// A rule that is listed as it was configured.
pub open spec fn listed_as_configured(rule: RegexRuleView) -> bool {
    listed_selectors(rule.qtype, rule.qtypes) && listed_selectors(rule.qclass, rule.qclasses)
}

/// Rules that are what their listing compiles to.
pub open spec fn settled(rules: Seq<RegexMeaning>) -> bool {
    forall|i: int|
        0 <= i < rules.len() ==> regex_meaning(published_rule(#[trigger] rules[i]), None) == Ok::<
            RegexMeaning,
            ErrorView,
        >(rules[i])
}

/// Each compiled rule keeps its place and has the meaning it has alone.
pub proof fn compiled_expressions_keep_their_places(
    rules: Seq<RegexRuleView>,
    taken: Seq<u32>,
    i: int,
)
    requires
        checked_rules(rules, taken) is Ok,
        0 <= i < rules.len(),
    ensures
        checked_rules(rules, taken)->Ok_0.len() == rules.len(),
        regex_meaning(rules[i], None) == Ok::<RegexMeaning, ErrorView>(
            checked_rules(rules, taken)->Ok_0[i],
        ),
    decreases rules.len(),
{
    let front = rules.drop_last();
    regex_ids_are_distinct(rules, taken);
    regex_ids_are_distinct(front, taken);
    if i < front.len() {
        compiled_expressions_keep_their_places(front, taken, i);
    }
}

/// Compiled rules are what their listing compiles to.
pub proof fn compiled_expressions_are_settled(rules: Seq<RegexRuleView>, taken: Seq<u32>)
    requires
        checked_rules(rules, taken) is Ok,
    ensures
        settled(checked_rules(rules, taken)->Ok_0),
{
    let all = checked_rules(rules, taken)->Ok_0;
    regex_ids_are_distinct(rules, taken);
    assert forall|i: int| 0 <= i < all.len() implies regex_meaning(
        published_rule(#[trigger] all[i]),
        None,
    ) == Ok::<RegexMeaning, ErrorView>(all[i]) by {
        compiled_expressions_keep_their_places(rules, taken, i);
    }
}

/// Compiled rules whose configuration has the form of a listing are listed as they were
/// configured.
pub proof fn listed_rules_are_those_configured(rules: Seq<RegexRuleView>, taken: Seq<u32>)
    requires
        checked_rules(rules, taken) is Ok,
        forall|i: int| 0 <= i < rules.len() ==> listed_as_configured(#[trigger] rules[i]),
    ensures
        published_rules(checked_rules(rules, taken)->Ok_0) == rules,
{
    let all = checked_rules(rules, taken)->Ok_0;
    regex_ids_are_distinct(rules, taken);
    assert forall|i: int| 0 <= i < rules.len() implies published_rules(all)[i] == rules[i] by {
        compiled_expressions_keep_their_places(rules, taken, i);
        assert(listed_as_configured(rules[i]));
    }
    assert(published_rules(all) =~= rules);
}

// ---- decisions -----------------------------------------------------------------------

/// Whether a rule speaks of a query, given whether its pattern matches the name.
pub open spec fn regex_applies(
    rule: RegexMeaning,
    matched: bool,
    qtype: u16,
    qclass: u16,
    client: Option<IpAddr>,
) -> bool {
    &&& rule.enabled
    &&& matched
    &&& selects(rule.qtypes, qtype)
    &&& selects(rule.qclasses, qclass)
    &&& scope_admits(rule.client, rule.networks, client)
}

pub open spec fn regex_precedence(rule: RegexMeaning) -> Precedence {
    Precedence {
        priority: rule.priority as int,
        class_given: rule.qclasses.len() > 0,
        type_given: rule.qtypes.len() > 0,
        client_given: rule.client is Some,
        prefix: longest_prefix(rule.networks),
        id: rule.id as int,
    }
}

/// The position of the strongest applying rule among the first `n`.
pub open spec fn strongest_regex(
    rules: Seq<RegexMeaning>,
    matched: Seq<bool>,
    qtype: u16,
    qclass: u16,
    client: Option<IpAddr>,
    n: int,
) -> Option<int>
    decreases n,
{
    if n <= 0 {
        None
    } else {
        let best = strongest_regex(rules, matched, qtype, qclass, client, n - 1);
        let rule = rules[n - 1];
        if regex_applies(rule, matched[n - 1], qtype, qclass, client) && (best is None || !weaker(
            regex_precedence(rule),
            regex_precedence(rules[best->0]),
        )) {
            Some(n - 1)
        } else {
            best
        }
    }
}

/// The decision of the rules, given which patterns match the name.
pub open spec fn matched_decision(
    rules: Seq<RegexMeaning>,
    matched: Seq<bool>,
    qtype: u16,
    qclass: u16,
    client: Option<IpAddr>,
) -> Option<Decision> {
    match strongest_regex(rules, matched, qtype, qclass, client, rules.len() as int) {
        Some(i) => Some(Decision { rule_id: rules[i].id, action: rules[i].action }),
        None => None,
    }
}

/// Which patterns match a name.
pub open spec fn matches_of(rules: Seq<RegexMeaning>, name: Seq<char>) -> Seq<bool> {
    Seq::new(rules.len(), |i: int| regex_match(rules[i].pattern, name))
}

/// The decision of the rules on a query.
pub open spec fn regex_verdict(
    rules: Seq<RegexMeaning>,
    name: Seq<char>,
    qtype: u16,
    qclass: u16,
    client: Option<IpAddr>,
) -> Option<Decision> {
    matched_decision(rules, matches_of(rules, name), qtype, qclass, client)
}

impl RegexRule {
    fn rank(&self) -> (r: Rank)
        ensures
            r@ == regex_precedence(self@),
    {
        Rank {
            priority: self.priority,
            class_given: self.qclasses.len() > 0,
            type_given: self.qtypes.len() > 0,
            client_given: self.client.is_some(),
            prefix: max_prefix(&self.client_networks),
            id: self.id,
        }
    }
}

/// Decides among the rules, given which patterns match the name.
pub fn decide_matched(
    rules: &[RegexRule],
    matched: &[bool],
    qtype: u16,
    qclass: u16,
    client: Option<IpAddr>,
) -> (r: Option<Decision>)
    requires
        matched@.len() == rules@.len(),
    ensures
        r == matched_decision(regex_meanings(rules@), matched@, qtype, qclass, client),
{
    let ghost all = regex_meanings(rules@);
    let mut best: Option<usize> = None;
    let mut i: usize = 0;
    while i < rules.len()
        invariant
            i <= rules.len(),
            matched@.len() == rules@.len(),
            all == regex_meanings(rules@),
            match best {
                Some(at) => at < i && strongest_regex(
                    all,
                    matched@,
                    qtype,
                    qclass,
                    client,
                    i as int,
                ) == Some(at as int),
                None => strongest_regex(all, matched@, qtype, qclass, client, i as int) == None::<
                    int,
                >,
            },
        decreases rules.len() - i,
    {
        let rule = &rules[i];
        assert(all[i as int] == rule@);
        if rule.enabled && matched[i] && is_selected(&rule.qtypes, qtype) && is_selected(
            &rule.qclasses,
            qclass,
        ) && admits_client(rule.client, &rule.client_networks, client) {
            let better = match best {
                Some(at) => {
                    assert(all[at as int] == rules[at as int]@);
                    !rule.rank().weaker_than(&rules[at].rank())
                },
                None => true,
            };
            if better {
                best = Some(i);
            }
        }
        i = i + 1;
    }
    match best {
        Some(at) => {
            assert(all[at as int] == rules[at as int]@);
            Some(Decision { rule_id: rules[at].id, action: rules[at].action })
        },
        None => None,
    }
}

impl RegexRules {
    /// Decides on a query: the strongest rule whose pattern matches the name.
    pub fn regex_decision(
        &self,
        name: &str,
        qtype: u16,
        qclass: u16,
        client: Option<IpAddr>,
    ) -> (r: Option<Decision>)
        requires
            self.wf(),
        ensures
            r == regex_verdict(self@, name@, qtype, qclass, client),
    {
        let mut matched: Vec<bool> = Vec::new();
        let mut i: usize = 0;
        while i < self.patterns.len()
            invariant
                i <= self.patterns.len(),
                self.wf(),
                matched@ == matches_of(self@, name@).take(i as int),
            decreases self.patterns.len() - i,
        {
            assert(self@[i as int] == self.rules@[i as int]@);
            let ghost before = matched@;
            let found = is_match(&self.patterns[i], name);
            matched.push(found);
            i = i + 1;
            assert(matched@ =~= matches_of(self@, name@).take(i as int));
        }
        assert(matched@ =~= matches_of(self@, name@));
        decide_matched(&self.rules, &matched, qtype, qclass, client)
    }
}

// ---- laws ----------------------------------------------------------------------------

/// A decision comes from an enabled rule that applies, and no applying rule outranks it; there is
/// none exactly when no rule applies.
pub proof fn regex_decision_is_the_strongest_rule(
    rules: Seq<RegexMeaning>,
    matched: Seq<bool>,
    qtype: u16,
    qclass: u16,
    client: Option<IpAddr>,
    n: int,
)
    requires
        0 <= n <= rules.len(),
        matched.len() == rules.len(),
    ensures
        match strongest_regex(rules, matched, qtype, qclass, client, n) {
            Some(i) => {
                &&& 0 <= i < n
                &&& regex_applies(rules[i], matched[i], qtype, qclass, client)
                &&& forall|j: int|
                    0 <= j < n && regex_applies(
                        #[trigger] rules[j],
                        matched[j],
                        qtype,
                        qclass,
                        client,
                    ) ==> !weaker(regex_precedence(rules[i]), regex_precedence(rules[j]))
            },
            None => forall|j: int|
                0 <= j < n ==> !regex_applies(
                    #[trigger] rules[j],
                    matched[j],
                    qtype,
                    qclass,
                    client,
                ),
        },
    decreases n,
{
    if n > 0 {
        regex_decision_is_the_strongest_rule(rules, matched, qtype, qclass, client, n - 1);
    }
}

/// The numbers of compiled rules are distinct, and none is the number of a domain rule.
pub proof fn regex_ids_are_distinct(rules: Seq<RegexRuleView>, taken: Seq<u32>)
    requires
        checked_rules(rules, taken) is Ok,
    ensures
        checked_rules(rules, taken)->Ok_0.len() == rules.len(),
        forall|i: int|
            0 <= i < rules.len() ==> (#[trigger] checked_rules(rules, taken)->Ok_0[i]).id
                == rules[i].id,
        forall|i: int| 0 <= i < rules.len() ==> !taken.contains((#[trigger] rules[i]).id),
        forall|i: int, k: int|
            0 <= i < k < rules.len() ==> (#[trigger] rules[i]).id != (#[trigger] rules[k]).id,
    decreases rules.len(),
{
    if rules.len() > 0 {
        let front = rules.drop_last();
        regex_ids_are_distinct(front, taken);
        let list = checked_rules(front, taken)->Ok_0;
        let all = checked_rules(rules, taken)->Ok_0;
        assert(!regex_id_taken(taken, front, rules.last().id));
        assert forall|i: int| 0 <= i < rules.len() implies !taken.contains(
            (#[trigger] rules[i]).id,
        ) by {
            if i < front.len() {
                assert(front[i] == rules[i]);
            }
        }
        assert forall|i: int| 0 <= i < rules.len() implies (#[trigger] all[i]).id
            == rules[i].id by {
            if i < front.len() {
                assert(all[i] == list[i]);
                assert(front[i] == rules[i]);
            }
        }
        assert forall|i: int, k: int| 0 <= i < k < rules.len() implies (#[trigger] rules[i]).id != (
        #[trigger] rules[k]).id by {
            assert(front[i] == rules[i]);
            if k < front.len() {
                assert(front[k] == rules[k]);
            }
        }
    }
}

/// The rule that decides is enabled, its pattern matches the name, it is for the type and the class
/// of the query and admits the client, and no other such rule ranks above it. Where there is none
/// there is no decision.
pub proof fn the_highest_ranked_expression_decides(
    rules: Seq<RegexMeaning>,
    name: Seq<char>,
    qtype: u16,
    qclass: u16,
    client: Option<IpAddr>,
)
    ensures
        match regex_verdict(rules, name, qtype, qclass, client) {
            Some(found) => exists|i: int|
                0 <= i < rules.len() && #[trigger] speaks_of(rules[i], name, qtype, qclass, client)
                    && found.rule_id == rules[i].id && found.action == rules[i].action && forall|
                    j: int,
                    mine: Seq<int>,
                    other: Seq<int>,
                |
                    0 <= j < rules.len() && speaks_of(rules[j], name, qtype, qclass, client)
                        && #[trigger] expression_ranks_as(rules[i], mine)
                        && #[trigger] expression_ranks_as(rules[j], other)
                        ==> crate::policy::no_greater(other, mine),
            None => forall|j: int|
                0 <= j < rules.len() ==> !#[trigger] speaks_of(
                    rules[j],
                    name,
                    qtype,
                    qclass,
                    client,
                ),
        },
{
    let n = rules.len() as int;
    let matched = matches_of(rules, name);
    regex_decision_is_the_strongest_rule(rules, matched, qtype, qclass, client, n);
    assert forall|j: int| 0 <= j < rules.len() implies #[trigger] speaks_of(
        rules[j],
        name,
        qtype,
        qclass,
        client,
    ) == regex_applies(rules[j], matched[j], qtype, qclass, client) by {
        assert(matched[j] == regex_match(rules[j].pattern, name));
    }
    match strongest_regex(rules, matched, qtype, qclass, client, n) {
        Some(i) => {
            assert(speaks_of(rules[i], name, qtype, qclass, client));
            assert forall|j: int, mine: Seq<int>, other: Seq<int>|
                0 <= j < rules.len() && speaks_of(rules[j], name, qtype, qclass, client)
                    && #[trigger] expression_ranks_as(rules[i], mine)
                    && #[trigger] expression_ranks_as(rules[j], other) implies crate::policy::no_greater(
            other,
            mine) by {
                let (a, b) = (regex_precedence(rules[j]), regex_precedence(rules[i]));
                crate::policy::the_narrowest_network_counts(rules[i].networks);
                crate::policy::the_narrowest_network_counts(rules[j].networks);
                crate::policy::ranks_are_lexical(a, b);
                assert(mine =~= seq![
                    b.priority,
                    crate::policy::one_if(b.class_given),
                    crate::policy::one_if(b.type_given),
                    crate::policy::one_if(b.client_given),
                    b.prefix,
                    b.id,
                ]);
                assert(other =~= seq![
                    a.priority,
                    crate::policy::one_if(a.class_given),
                    crate::policy::one_if(a.type_given),
                    crate::policy::one_if(a.client_given),
                    a.prefix,
                    a.id,
                ]);
            }
        },
        None => {},
    }
}

/// Whether an enabled rule matches a name and is for the rest of the query.
pub open spec fn speaks_of(
    rule: RegexMeaning,
    name: Seq<char>,
    qtype: u16,
    qclass: u16,
    client: Option<IpAddr>,
) -> bool {
    &&& rule.enabled
    &&& regex_match(rule.pattern, name)
    &&& rule.qtypes.len() == 0 || rule.qtypes.contains(qtype)
    &&& rule.qclasses.len() == 0 || rule.qclasses.contains(qclass)
    &&& rule.client is None || rule.client == client
    &&& rule.networks.len() == 0 || client is Some && exists|i: int|
        0 <= i < rule.networks.len() && crate::net::in_network(#[trigger] rule.networks[i], client->0)
}

/// What ranks a rule with an expression: as a domain rule is ranked.
pub open spec fn expression_ranks_as(rule: RegexMeaning, key: Seq<int>) -> bool {
    &&& key.len() == 6
    &&& key[0] == rule.priority
    &&& key[1] == crate::policy::one_if(rule.qclasses.len() > 0)
    &&& key[2] == crate::policy::one_if(rule.qtypes.len() > 0)
    &&& key[3] == crate::policy::one_if(rule.client is Some)
    &&& crate::policy::is_narrowest(rule.networks, key[4])
    &&& key[5] == rule.id
}

/// A compiled rule says what its configuration says: the pattern, the action, the priority and the
/// number as they are, the types and classes that it is for, and the networks that are written down,
/// in their order.
pub proof fn compiled_expressions_say_what_is_configured(
    rules: Seq<RegexRuleView>,
    taken: Seq<u32>,
    i: int,
)
    requires
        compiled_regex(rules, taken) is Ok,
        0 <= i < rules.len(),
    ensures
        ({
            let rule = rules[i];
            let made = compiled_regex(rules, taken)->Ok_0[i];
            &&& rules.len() <= 4096
            &&& compiled_regex(rules, taken)->Ok_0.len() == rules.len()
            &&& made.enabled == rule.enabled
            &&& made.id == rule.id
            &&& made.pattern == rule.pattern
            &&& made.action == rule.action
            &&& made.priority == rule.priority
            &&& made.client == rule.client
            &&& made.qtypes == (if rule.qtype is Some {
                seq![rule.qtype->0]
            } else {
                rule.qtypes
            })
            &&& made.qclasses == (if rule.qclass is Some {
                seq![rule.qclass->0]
            } else {
                rule.qclasses
            })
            &&& made.networks.len() == rule.client_cidrs.len()
            &&& forall|k: int|
                0 <= k < made.networks.len() ==> crate::net::network(rule.client_cidrs[k]) == Some(
                    #[trigger] made.networks[k],
                )
            &&& rule.client is None || rule.client_cidrs.len() == 0
            &&& rule.client_cidrs.len() <= 256
            &&& byte_len(rule.pattern) <= 4096
        }),
{
    compiled_expressions_keep_their_places(rules, taken, i);
    let rule = rules[i];
    let made = compiled_regex(rules, taken)->Ok_0[i];
    crate::policy::bad_networks_are_found(rule.client_cidrs);
    patterns_are_bounded(rules, taken, i);
    assert forall|k: int| 0 <= k < made.networks.len() implies crate::net::network(
        rule.client_cidrs[k],
    ) == Some(#[trigger] made.networks[k]) by {
        assert(crate::net::network(rule.client_cidrs[k]) is Some);
    }
}

proof fn patterns_are_bounded(rules: Seq<RegexRuleView>, taken: Seq<u32>, i: int)
    requires
        checked_rules(rules, taken) is Ok,
        0 <= i < rules.len(),
    ensures
        byte_len(rules[i].pattern) <= 4096,
    decreases rules.len(),
{
    let front = rules.drop_last();
    if i < front.len() {
        patterns_are_bounded(front, taken, i);
        assert(front[i] == rules[i]);
    }
}

} // verus!
