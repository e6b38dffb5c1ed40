//! Rule-based classification of window events into Kimai projects.
//!
//! Each rule is a case-insensitive regular expression matched against the
//! event's title, app name and URL joined by newlines. Rules are tried in
//! order and the first match wins; a match on a rule whose project id is 0
//! drops the event; an event no rule matches goes to the default project.
//! Compiling and matching the expressions is the `regex` crate's work.

use vstd::prelude::*;
use crate::aw_client::{AwEvent, AwEventData};
use crate::config::{Config, Rule};
use crate::text::{ascii_fold, join_with};

verus! {

#[verifier::external_type_specification]
#[verifier::external_body]
pub struct ExRegex(regex::Regex);

// ── the regex crate, named ─────────────────────────────────────────────────

/// Whether `regex::Regex::new` accepts the pattern.
pub uninterp spec fn regex_compiles(pattern: Seq<char>) -> bool;

/// Whether `regex::RegexBuilder` accepts the pattern with case-insensitive
/// matching switched on.
pub uninterp spec fn ci_regex_compiles(pattern: Seq<char>) -> bool;

/// Whether the pattern, compiled case-insensitively, matches somewhere in
/// the haystack (`regex::Regex::is_match`).
pub uninterp spec fn ci_regex_matches(pattern: Seq<char>, haystack: Seq<char>) -> bool;

/// A character that stands for itself in a pattern: an ASCII letter or
/// digit, a space, `-`, `_`, `/` or `:` (none is a regex operator).
pub open spec fn plain_char(c: char) -> bool {
    ('a' <= c && c <= 'z') || ('A' <= c && c <= 'Z') || ('0' <= c && c <= '9') || c == ' ' || c == '-'
        || c == '_' || c == '/' || c == ':'
}

/// A pattern made of plain characters and `|`: alternatives of literal text,
/// such as `YouTube|Twitter|Hacker News`.
pub open spec fn literal_alternation(p: Seq<char>) -> bool {
    forall|i: int| 0 <= i < p.len() ==> #[trigger] p[i] == '|' || plain_char(p[i])
}

/// The alternatives of a pattern: its pieces between `|`s, in order.
pub open spec fn alternatives(p: Seq<char>) -> Seq<Seq<char>>
    decreases p.len(),
{
    if p.len() == 0 {
        seq![Seq::<char>::empty()]
    } else {
        let r = alternatives(p.drop_last());
        if p.last() == '|' {
            r.push(Seq::<char>::empty())
        } else {
            r.update(r.len() - 1, r.last().push(p.last()))
        }
    }
}

/// Every character of the text is ASCII.
pub open spec fn ascii_text(h: Seq<char>) -> bool {
    forall|i: int| 0 <= i < h.len() ==> (#[trigger] h[i] as u32) < 128
}

/// `alt` occurs in `h` at position `x`, ASCII letters compared without case.
pub open spec fn occurs_ci_at(alt: Seq<char>, h: Seq<char>, x: int) -> bool {
    0 <= x && x + alt.len() <= h.len() && forall|m: int|
        0 <= m < alt.len() ==> ascii_fold(#[trigger] h[x + m]) == ascii_fold(alt[m])
}

/// Some alternative of `p` occurs in `h`, ASCII letters compared without case.
pub open spec fn literal_match(p: Seq<char>, h: Seq<char>) -> bool {
    exists|k: int, x: int|
        0 <= k < alternatives(p).len() && #[trigger] occurs_ci_at(alternatives(p)[k], h, x)
}

/// Whether a rule's pattern matches the text: for alternatives of literal
/// text against ASCII text, exactly when one of them occurs in it ignoring
/// case; otherwise the regex crate's answer.
pub open spec fn pattern_matches(p: Seq<char>, h: Seq<char>) -> bool {
    if literal_alternation(p) && ascii_text(h) {
        literal_match(p, h)
    } else {
        ci_regex_matches(p, h)
    }
}

/// `regex::Regex::new(pattern)`, reduced to whether it succeeded. The
/// contract names the answer; the regex syntax and size limits that decide it
/// are not spelt out.
#[verifier::external_body]
pub(crate) fn check_pattern(pattern: &str) -> (ok: bool)
    ensures
        ok == regex_compiles(pattern@),
{
    regex::Regex::new(pattern).is_ok()
}

/// `regex::RegexBuilder::new(pattern).case_insensitive(true).build()`, with the
/// error dropped. The contract says when a regex comes back, by name, and that
/// a short pattern of literal alternatives always compiles (plain characters
/// and `|` are valid syntax, and a thousand of them stay far below the
/// default size limit); the rest of the regex syntax and the limits are not
/// spelt out.
#[verifier::external_body]
fn build_ci_regex(pattern: &str) -> (r: Option<regex::Regex>)
    ensures
        r is Some <==> ci_regex_compiles(pattern@),
        literal_alternation(pattern@) && pattern@.len() <= 1000 ==> r is Some,
{
    regex::RegexBuilder::new(pattern).case_insensitive(true).build().ok()
}

/// A compiled rule ready for matching — holds the pre-built Regex alongside
/// the rule's configured values so we only pay the compile cost once at startup.
///
/// The fields are private to this module and `compile_rule` is the only
/// place that builds one: `pattern` is always `source` compiled with
/// case-insensitive matching.
pub struct CompiledRule {
    pattern: regex::Regex,
    source: String,
    project_id: u32,
    activity_id: u32,
    label: String,
}

/// `regex::Regex::is_match` on a rule's compiled pattern. Every
/// `CompiledRule` holds `source` compiled case-insensitively (see the type),
/// so the answer is the named match of `source` against the haystack. For
/// literal alternatives against ASCII text it is stated: in regex syntax
/// plain characters match themselves (a space included, since whitespace is
/// not ignored by default), `|` separates alternatives, an unanchored regex
/// matches anywhere, and case-insensitive matching of ASCII text identifies
/// only the two cases of an ASCII letter. How other regular expressions
/// match is not spelt out.
#[verifier::external_body]
fn rule_matches(rule: &CompiledRule, haystack: &str) -> (b: bool)
    ensures
        b == ci_regex_matches(rule.source@, haystack@),
        b == pattern_matches(rule.source@, haystack@),
{
    rule.pattern.is_match(haystack)
}

// ── the model ──────────────────────────────────────────────────────────────

/// A rule as classification sees it: pattern, project id, activity id, label.
pub type RuleModel = (Seq<char>, u32, u32, Seq<char>);

/// The label a configured rule carries: its own, or else its pattern.
pub open spec fn rule_model(r: Rule) -> RuleModel {
    (
        r.pattern@,
        r.project_id,
        r.activity_id,
        match r.label {
            Some(l) => l@,
            None => r.pattern@,
        },
    )
}

/// The text the rules are matched against: title, app name and URL (if any),
/// separated by newlines.
pub open spec fn haystack(d: AwEventData) -> Seq<char> {
    d.title@ + seq!['\n'] + d.app@ + match d.url {
        Some(u) => seq!['\n'] + u@,
        None => Seq::<char>::empty(),
    }
}

/// The label of events no rule matched.
pub open spec fn default_label() -> Seq<char> {
    "default"@
}

/// First match wins. `None` drops the event: the first matching rule has
/// project id 0. With no matching rule the defaults apply.
pub open spec fn classify_rules(rules: Seq<RuleModel>, hay: Seq<char>, dp: u32, da: u32) -> Option<
    (u32, u32, Seq<char>),
>
    decreases rules.len(),
{
    if rules.len() == 0 {
        Some((dp, da, default_label()))
    } else if pattern_matches(rules[0].0, hay) {
        if rules[0].1 == 0 {
            None
        } else {
            Some((rules[0].1, rules[0].2, rules[0].3))
        }
    } else {
        classify_rules(rules.drop_first(), hay, dp, da)
    }
}

/// An ActivityWatch event enriched with the Kimai project it was classified to.
pub struct ClassifiedEvent {
    pub event: AwEvent,
    pub project_id: u32,
    pub activity_id: u32,
    /// Human-readable label of the matched rule (or "default")
    pub label: String,
}

impl Clone for ClassifiedEvent {
    fn clone(&self) -> (r: Self)
        ensures
            r == *self,
    {
        ClassifiedEvent {
            event: self.event.clone(),
            project_id: self.project_id,
            activity_id: self.activity_id,
            label: self.label.clone(),
        }
    }
}

/// A classified event with its label as characters.
pub struct ClassifiedView {
    pub event: AwEvent,
    pub project_id: u32,
    pub activity_id: u32,
    pub label: Seq<char>,
}

impl View for ClassifiedEvent {
    type V = ClassifiedView;

    open spec fn view(&self) -> ClassifiedView {
        ClassifiedView {
            event: self.event,
            project_id: self.project_id,
            activity_id: self.activity_id,
            label: self.label@,
        }
    }
}

/// What classifying `ev` gives: the event with its project, activity and
/// label, or nothing when it is dropped.
pub open spec fn classified(rules: Seq<RuleModel>, dp: u32, da: u32, ev: AwEvent) -> Option<
    ClassifiedView,
> {
    match classify_rules(rules, haystack(ev.data), dp, da) {
        Some(c) => Some(ClassifiedView { event: ev, project_id: c.0, activity_id: c.1, label: c.2 }),
        None => None,
    }
}

/// Classifying a batch: the classified events in order, dropped ones left out.
pub open spec fn classify_seq(rules: Seq<RuleModel>, dp: u32, da: u32, evs: Seq<AwEvent>) -> Seq<
    ClassifiedView,
>
    decreases evs.len(),
{
    if evs.len() == 0 {
        seq![]
    } else {
        let rest = classify_seq(rules, dp, da, evs.drop_last());
        match classified(rules, dp, da, evs.last()) {
            Some(c) => rest.push(c),
            None => rest,
        }
    }
}

pub struct Classifier {
    rules: Vec<CompiledRule>,
    default_project_id: u32,
    default_activity_id: u32,
}

impl Classifier {
    /// The rules in order, as pattern, project, activity and label.
    pub closed spec fn rules_model(&self) -> Seq<RuleModel> {
        Seq::new(
            self.rules@.len(),
            |i: int|
                (
                    self.rules@[i].source@,
                    self.rules@[i].project_id,
                    self.rules@[i].activity_id,
                    self.rules@[i].label@,
                ),
        )
    }

    pub closed spec fn default_project(&self) -> u32 {
        self.default_project_id
    }

    pub closed spec fn default_activity(&self) -> u32 {
        self.default_activity_id
    }

    /// The rules of `config`, in order, each rule compiling
    /// case-insensitively.
    pub open spec fn built_from(&self, config: Config) -> bool {
        &&& self.rules_model() == config.rules@.map_values(|r: Rule| rule_model(r))
        &&& self.default_project() == config.kimai.default_project_id
        &&& self.default_activity() == config.kimai.default_activity_id
    }

    /// Whether every configured pattern compiles case-insensitively, which
    /// is what `from_config` asks of its config.
    pub fn rules_compile(config: &Config) -> (b: bool)
        ensures
            b <==> forall|i: int|
                0 <= i < config.rules@.len() ==> ci_regex_compiles(#[trigger] config.rules@[i].pattern@),
            (forall|i: int|
                0 <= i < config.rules@.len() ==> literal_alternation(#[trigger] config.rules@[i].pattern@)
                    && config.rules@[i].pattern@.len() <= 1000) ==> b,
    {
        let n = config.rules.len();
        let mut i: usize = 0;
        while i < n
            invariant
                n == config.rules@.len(),
                i <= n,
                forall|k: int| 0 <= k < i ==> ci_regex_compiles(#[trigger] config.rules@[k].pattern@),
            decreases n - i,
        {
            if build_ci_regex(config.rules[i].pattern.as_str()).is_none() {
                return false;
            }
            i = i + 1;
        }
        true
    }

    /// Build a Classifier from the loaded config, or nothing when one of the
    /// patterns does not compile case-insensitively.
    pub fn try_from_config(config: &Config) -> (r: Option<Classifier>)
        ensures
            r is Some <==> forall|i: int|
                0 <= i < config.rules@.len() ==> ci_regex_compiles(#[trigger] config.rules@[i].pattern@),
            (forall|i: int|
                0 <= i < config.rules@.len() ==> literal_alternation(#[trigger] config.rules@[i].pattern@)
                    && config.rules@[i].pattern@.len() <= 1000) ==> r is Some,
            r matches Some(c) ==> c.built_from(*config),
    {
        if Self::rules_compile(config) {
            Some(Self::from_config(config))
        } else {
            None
        }
    }

    /// Build a Classifier from the loaded config. Every pattern must compile
    /// case-insensitively (`rules_compile` tells whether they do).
    pub fn from_config(config: &Config) -> (r: Classifier)
        requires
            forall|i: int|
                0 <= i < config.rules@.len() ==> ci_regex_compiles(#[trigger] config.rules@[i].pattern@),
        ensures
            r.built_from(*config),
    {
        let n = config.rules.len();
        let mut rules: Vec<CompiledRule> = Vec::with_capacity(n);
        let mut i: usize = 0;
        while i < n
            invariant
                n == config.rules@.len(),
                i <= n,
                rules@.len() == i,
                forall|k: int|
                    0 <= k < config.rules@.len() ==> ci_regex_compiles(#[trigger] config.rules@[k].pattern@),
                forall|k: int|
                    0 <= k < i ==> (#[trigger] rules@[k].source@, rules@[k].project_id,
                    rules@[k].activity_id, rules@[k].label@) == rule_model(config.rules@[k]),
            decreases n - i,
        {
            let c = compile_rule(&config.rules[i]).unwrap();
            rules.push(c);
            i = i + 1;
        }
        let c = Classifier {
            rules,
            default_project_id: config.kimai.default_project_id,
            default_activity_id: config.kimai.default_activity_id,
        };
        assert(c.rules_model() =~= config.rules@.map_values(|r: Rule| rule_model(r)));
        c
    }

    /// Classify a single event. Returns None if the event should be dropped
    /// (e.g. it matches a rule with project_id = 0, used as an explicit
    /// "ignore" sentinel).
    pub fn classify(&self, event: &AwEvent) -> (r: Option<ClassifiedEvent>)
        ensures
            match r {
                Some(c) => classified(
                    self.rules_model(),
                    self.default_project(),
                    self.default_activity(),
                    *event,
                ) == Some(c@),
                None => classified(
                    self.rules_model(),
                    self.default_project(),
                    self.default_activity(),
                    *event,
                ) is None,
            },
    {
        let hay = build_haystack(event);
        let ghost rm = self.rules_model();
        let n = self.rules.len();
        let mut i: usize = 0;
        assert(rm.skip(0) =~= rm);
        while i < n
            invariant
                n == self.rules@.len(),
                rm == self.rules_model(),
                i <= n,
                hay@ == haystack(event.data),
                classify_rules(rm, hay@, self.default_project(), self.default_activity())
                    == classify_rules(rm.skip(i as int), hay@, self.default_project(), self.default_activity()),
            decreases n - i,
        {
            let rule = &self.rules[i];
            assert(rm.skip(i as int)[0] == rm[i as int]);
            if rule_matches(rule, hay.as_str()) {
                // project_id = 0 means "explicitly ignore this event"
                if rule.project_id == 0 {
                    return None;
                }
                return Some(
                    ClassifiedEvent {
                        event: event.clone(),
                        project_id: rule.project_id,
                        activity_id: rule.activity_id,
                        label: rule.label.clone(),
                    },
                );
            }
            assert(rm.skip(i as int).drop_first() =~= rm.skip(i + 1));
            i = i + 1;
        }
        assert(rm.skip(n as int) =~= Seq::<RuleModel>::empty());
        // No rule matched — fall through to defaults
        proof {
            reveal_strlit("default");
        }
        Some(
            ClassifiedEvent {
                event: event.clone(),
                project_id: self.default_project_id,
                activity_id: self.default_activity_id,
                label: String::from_str("default"),
            },
        )
    }

    /// Classify a batch of events, discarding those explicitly ignored.
    pub fn classify_all(&self, events: &[AwEvent]) -> (r: Vec<ClassifiedEvent>)
        ensures
            r@.len() == classify_seq(
                self.rules_model(),
                self.default_project(),
                self.default_activity(),
                events@,
            ).len(),
            forall|i: int|
                0 <= i < r@.len() ==> #[trigger] r@[i]@ == classify_seq(
                    self.rules_model(),
                    self.default_project(),
                    self.default_activity(),
                    events@,
                )[i],
    {
        let ghost rm = self.rules_model();
        let ghost dp = self.default_project();
        let ghost da = self.default_activity();
        let n = events.len();
        let mut out: Vec<ClassifiedEvent> = Vec::new();
        let mut i: usize = 0;
        while i < n
            invariant
                n == events@.len(),
                i <= n,
                rm == self.rules_model(),
                dp == self.default_project(),
                da == self.default_activity(),
                out@.len() == classify_seq(rm, dp, da, events@.take(i as int)).len(),
                forall|k: int|
                    0 <= k < out@.len() ==> #[trigger] out@[k]@ == classify_seq(
                        rm,
                        dp,
                        da,
                        events@.take(i as int),
                    )[k],
            decreases n - i,
        {
            assert(events@.take(i + 1).drop_last() =~= events@.take(i as int));
            assert(events@.take(i + 1).last() == events@[i as int]);
            match self.classify(&events[i]) {
                Some(c) => {
                    out.push(c);
                },
                None => {},
            }
            i = i + 1;
        }
        assert(events@.take(n as int) =~= events@);
        out
    }
}

/// Build the string we run the regex against.
/// We combine the window title, app name, and URL (if present) separated by
/// newlines so a single pattern can match any field without separate passes.
fn build_haystack(event: &AwEvent) -> (r: String)
    ensures
        r@ == haystack(event.data),
{
    let mut s = String::from_str(event.data.title.as_str());
    s.append("\n");
    s.append(event.data.app.as_str());
    proof {
        reveal_strlit("\n");
    }
    match &event.data.url {
        Some(url) => {
            s.append("\n");
            s.append(url.as_str());
        },
        None => {},
    }
    assert(s@ =~= haystack(event.data));
    s
}

/// Compile one configured rule; nothing when its pattern does not compile
/// case-insensitively.
fn compile_rule(rule: &Rule) -> (r: Option<CompiledRule>)
    ensures
        r is Some <==> ci_regex_compiles(rule.pattern@),
        r matches Some(c) ==> (c.source@, c.project_id, c.activity_id, c.label@) == rule_model(*rule),
{
    let pattern = match build_ci_regex(rule.pattern.as_str()) {
        Some(p) => p,
        None => {
            return None;
        },
    };
    let label = match &rule.label {
        Some(l) => l.clone(),
        None => rule.pattern.clone(),
    };
    Some(
        CompiledRule {
            pattern,
            source: rule.pattern.clone(),
            project_id: rule.project_id,
            activity_id: rule.activity_id,
            label,
        },
    )
}

// ── laws ────────────────────────────────────────────────────────────────────

/// First match wins: when rule `i` is the first whose pattern matches, it
/// decides — the event is dropped if its project id is 0, and otherwise gets
/// its project, activity and label — whatever the later rules say.
pub proof fn law_first_match_wins(rules: Seq<RuleModel>, hay: Seq<char>, dp: u32, da: u32, i: int)
    requires
        0 <= i < rules.len(),
        pattern_matches(rules[i].0, hay),
        forall|j: int| 0 <= j < i ==> !pattern_matches(#[trigger] rules[j].0, hay),
    ensures
        classify_rules(rules, hay, dp, da) == if rules[i].1 == 0 {
            None
        } else {
            Some((rules[i].1, rules[i].2, rules[i].3))
        },
    decreases i,
{
    if i > 0 {
        assert(!pattern_matches(rules[0].0, hay));
        let rest = rules.drop_first();
        assert forall|j: int| 0 <= j < i - 1 implies !pattern_matches(#[trigger] rest[j].0, hay) by {
            assert(rest[j] == rules[j + 1]);
        }
        law_first_match_wins(rest, hay, dp, da, i - 1);
    }
}

/// An event no rule matches is kept, with the default project and activity
/// and the label "default".
pub proof fn law_unmatched_gets_defaults(rules: Seq<RuleModel>, hay: Seq<char>, dp: u32, da: u32)
    requires
        forall|j: int| 0 <= j < rules.len() ==> !pattern_matches(#[trigger] rules[j].0, hay),
    ensures
        classify_rules(rules, hay, dp, da) == Some((dp, da, default_label())),
    decreases rules.len(),
{
    if rules.len() > 0 {
        assert(!pattern_matches(rules[0].0, hay));
        let rest = rules.drop_first();
        assert forall|j: int| 0 <= j < rest.len() implies !pattern_matches(#[trigger] rest[j].0, hay) by {
            assert(rest[j] == rules[j + 1]);
        }
        law_unmatched_gets_defaults(rest, hay, dp, da);
    }
}

/// Classification never changes an event: a kept event is the input event
/// itself, and its project id is either a matched rule's (non-zero) or the
/// default.
pub proof fn law_classified_project(rules: Seq<RuleModel>, hay: Seq<char>, dp: u32, da: u32)
    ensures
        classify_rules(rules, hay, dp, da) matches Some(c) ==> (c == (dp, da, default_label()) || (
        c.0 != 0 && exists|i: int| 0 <= i < rules.len() && (#[trigger] rules[i]).1 == c.0 && rules[i].2 == c.1 && rules[i].3 == c.2)),
    decreases rules.len(),
{
    if rules.len() > 0 && !pattern_matches(rules[0].0, hay) {
        let rest = rules.drop_first();
        law_classified_project(rest, hay, dp, da);
        match classify_rules(rest, hay, dp, da) {
            Some(c) => {
                if c != (dp, da, default_label()) {
                    let i = choose|i: int|
                        0 <= i < rest.len() && (#[trigger] rest[i]).1 == c.0 && rest[i].2 == c.1
                            && rest[i].3 == c.2;
                    assert(rules[i + 1] == rest[i]);
                }
            },
            None => {},
        }
    }
}

/// The alternatives of a pattern are its pieces between `|`s: there is at
/// least one, none contains `|`, and joined with `|` they give the pattern
/// back.
pub proof fn law_alternatives_split(p: Seq<char>)
    ensures
        alternatives(p).len() >= 1,
        forall|k: int| 0 <= k < alternatives(p).len() ==> !(#[trigger] alternatives(p)[k]).contains('|'),
        join_with(alternatives(p), "|"@) == p,
    decreases p.len(),
{
    reveal_strlit("|");
    if p.len() == 0 {
        assert(alternatives(p)[0] =~= Seq::<char>::empty());
        assert(p =~= Seq::<char>::empty());
    } else {
        let q = p.drop_last();
        let c = p.last();
        law_alternatives_split(q);
        let r = alternatives(q);
        let a = alternatives(p);
        if c == '|' {
            assert(a == r.push(Seq::<char>::empty()));
            assert(a.drop_last() =~= r);
            assert forall|k: int| 0 <= k < a.len() implies !(#[trigger] a[k]).contains('|') by {
                if k < r.len() {
                    assert(a[k] == r[k]);
                } else {
                    assert(a[k] =~= Seq::<char>::empty());
                }
            }
            assert(join_with(a, "|"@) =~= q + "|"@ + Seq::<char>::empty());
            assert(p =~= q + "|"@);
        } else {
            let last = r.last().push(c);
            assert(a == r.update(r.len() - 1, last));
            assert forall|k: int| 0 <= k < a.len() implies !(#[trigger] a[k]).contains('|') by {
                if k < r.len() - 1 {
                    assert(a[k] == r[k]);
                } else {
                    assert(a[k] == last);
                    assert(!r[r.len() - 1].contains('|'));
                    if last.contains('|') {
                        let m = choose|m: int| 0 <= m < last.len() && last[m] == '|';
                        if m < last.len() - 1 {
                            assert(r.last()[m] == '|');
                            assert(r.last().contains('|'));
                        }
                    }
                }
            }
            if r.len() == 1 {
                assert(join_with(a, "|"@) == a[0]);
                assert(join_with(r, "|"@) == r[0]);
                assert(p =~= q.push(c));
            } else {
                assert(a.drop_last() =~= r.drop_last());
                assert(join_with(a, "|"@) == join_with(r.drop_last(), "|"@) + "|"@ + last);
                assert(join_with(r, "|"@) == join_with(r.drop_last(), "|"@) + "|"@ + r.last());
                assert(join_with(a, "|"@) =~= join_with(r, "|"@).push(c));
                assert(p =~= q.push(c));
            }
        }
    }
}

/// Rules of literal alternatives (such as `YouTube|Twitter|Hacker News`)
/// match as literal text: against ASCII text, the first such rule one of
/// whose alternatives occurs in the text, ASCII letters compared without
/// case and every other character (spaces included) exactly, decides the
/// event — it is dropped when the rule's project id is 0 and otherwise gets
/// the rule's project, activity and label.
pub proof fn law_literal_rules_first_match(
    rules: Seq<RuleModel>,
    hay: Seq<char>,
    dp: u32,
    da: u32,
    i: int,
    k: int,
    x: int,
)
    requires
        ascii_text(hay),
        0 <= i < rules.len(),
        forall|j: int| 0 <= j <= i ==> literal_alternation(#[trigger] rules[j].0),
        0 <= k < alternatives(rules[i].0).len(),
        0 <= x,
        x + alternatives(rules[i].0)[k].len() <= hay.len(),
        forall|m: int|
            0 <= m < alternatives(rules[i].0)[k].len() ==> ascii_fold(#[trigger] hay[x + m]) == ascii_fold(
                alternatives(rules[i].0)[k][m],
            ),
        forall|j: int, k2: int, x2: int|
            0 <= j < i && 0 <= k2 < alternatives(rules[j].0).len() ==> !#[trigger] occurs_ci_at(
                alternatives(rules[j].0)[k2],
                hay,
                x2,
            ),
    ensures
        classify_rules(rules, hay, dp, da) == if rules[i].1 == 0 {
            None
        } else {
            Some((rules[i].1, rules[i].2, rules[i].3))
        },
{
    assert(occurs_ci_at(alternatives(rules[i].0)[k], hay, x));
    assert(literal_alternation(rules[i].0));
    assert(pattern_matches(rules[i].0, hay));
    assert forall|j: int| 0 <= j < i implies !pattern_matches(#[trigger] rules[j].0, hay) by {
        assert(literal_alternation(rules[j].0));
        if literal_match(rules[j].0, hay) {
            let (k2, x2) = choose|k2: int, x2: int|
                0 <= k2 < alternatives(rules[j].0).len() && #[trigger] occurs_ci_at(
                    alternatives(rules[j].0)[k2],
                    hay,
                    x2,
                );
            assert(!occurs_ci_at(alternatives(rules[j].0)[k2], hay, x2));
        }
    }
    law_first_match_wins(rules, hay, dp, da, i);
}

} // verus!
