//! Inclusion-match rules and exclusion-window rules: their textual grammars,
//! and the trees that group them by group id.

use vstd::prelude::*;

verus! {

use vstd::string::StrSliceExecFns;

use crate::event::{spec_dtstart, Event, Property};
use crate::text::{find_char, index_of_first, lemma_index_of_first, str_eq};
use crate::time::{date_le, parse_date, parsed_date, ts_date, Date};

// ---------------------------------------------------------------------------
// Regular expressions, trusted at the boundary to the regex crate.
// ---------------------------------------------------------------------------

/// Whether regex compilation accepts a pattern. Left uninterpreted: the regex
/// crate decides; the outcome depends on the pattern alone.
pub uninterp spec fn pattern_ok(pat: Seq<char>) -> bool;

/// Whether a pattern finds a match inside a text. Left uninterpreted: the
/// regex crate decides; the outcome depends on the pattern and the text alone.
pub uninterp spec fn pattern_matches(pat: Seq<char>, text: Seq<char>) -> bool;

#[verifier::external_type_specification]
#[verifier::external_body]
pub struct ExRegex(regex::Regex);

/// A compiled regular expression kept together with the pattern text it came
/// from; `compile` is the only constructor, so the two always agree.
#[derive(Debug)]
pub struct CompiledPattern {
    pattern: String,
    regex: regex::Regex,
}

impl CompiledPattern {
    /// The pattern text this regular expression was compiled from.
    pub closed spec fn src(self) -> Seq<char> {
        self.pattern@
    }

    /// Relies on `regex::Regex::new`: whether a pattern compiles depends on
    /// the pattern text alone.
    #[verifier::external_body]
    pub(crate) fn compile(pat: &str) -> (r: Option<CompiledPattern>)
        ensures
            (r is Some) == pattern_ok(pat@),
            r matches Some(cp) ==> cp.src() == pat@,
    {
        match regex::Regex::new(pat) {
            Ok(regex) => Some(CompiledPattern { pattern: pat.to_owned(), regex }),
            Err(_) => None,
        }
    }

    /// Relies on `regex::Regex::is_match`: the outcome depends on the pattern
    /// and the searched text alone.
    #[verifier::external_body]
    pub(crate) fn matches(&self, text: &str) -> (r: bool)
        ensures
            r == pattern_matches(self.src(), text@),
    {
        self.regex.is_match(text)
    }
}

// ---------------------------------------------------------------------------
// The signed decimal grammar of group ids.
// ---------------------------------------------------------------------------

/// A decimal digit.
pub open spec fn is_digit(c: char) -> bool {
    48 <= c as int <= 57
}

/// Every character is a decimal digit.
pub open spec fn all_digits(s: Seq<char>) -> bool {
    forall|i: int| 0 <= i < s.len() ==> is_digit(#[trigger] s[i])
}

/// The number denoted by a run of decimal digits, most significant first.
pub open spec fn digits_value(s: Seq<char>) -> int
    decreases s.len(),
{
    if s.len() == 0 {
        0
    } else {
        digits_value(s.drop_last()) * 10 + (s.last() as int - 48)
    }
}

/// The signed decimal grammar of a group id: an optional sign, then at least
/// one digit, denoting a value that fits in `isize`.
pub open spec fn spec_group_id(s: Seq<char>) -> Option<int> {
    let neg = s.len() > 0 && s[0] == '-';
    let digits = if s.len() > 0 && (s[0] == '-' || s[0] == '+') {
        s.drop_first()
    } else {
        s
    };
    if digits.len() == 0 || !all_digits(digits) {
        None
    } else {
        let v = if neg {
            -digits_value(digits)
        } else {
            digits_value(digits)
        };
        if isize::MIN <= v <= isize::MAX {
            Some(v)
        } else {
            None
        }
    }
}

proof fn lemma_digits_value_nonneg(s: Seq<char>)
    requires
        all_digits(s),
    ensures
        digits_value(s) >= 0,
    decreases s.len(),
{
    if s.len() > 0 {
        assert(forall|i: int|
            0 <= i < s.drop_last().len() ==> s.drop_last()[i] == #[trigger] s[i]);
        lemma_digits_value_nonneg(s.drop_last());
    }
}

/// A longer digit run denotes at least as large a number.
proof fn lemma_digits_value_prefix(s: Seq<char>, m: int)
    requires
        all_digits(s),
        0 <= m <= s.len(),
    ensures
        digits_value(s) >= digits_value(s.take(m)),
    decreases s.len() - m,
{
    if m == s.len() {
        assert(s.take(m) =~= s);
    } else {
        lemma_digits_value_prefix(s, m + 1);
        assert(s.take(m + 1).drop_last() =~= s.take(m));
        assert(forall|i: int| 0 <= i < m ==> s.take(m)[i] == #[trigger] s[i]);
        lemma_digits_value_nonneg(s.take(m));
        assert(digits_value(s.take(m + 1)) == digits_value(s.take(m)) * 10 + (s[m] as int - 48));
    }
}

/// Parse a signed decimal group id.
fn parse_group_id(s: &str) -> (r: Option<isize>)
    ensures
        match r {
            Some(g) => spec_group_id(s@) == Some(g as int),
            None => spec_group_id(s@) is None,
        },
{
    let n = s.unicode_len();
    let mut start: usize = 0;
    let mut neg = false;
    if n > 0 {
        let c0 = s.get_char(0);
        if c0 == '-' {
            neg = true;
            start = 1;
        } else if c0 == '+' {
            start = 1;
        }
    }
    let ghost digits: Seq<char> = if s@.len() > 0 && (s@[0] == '-' || s@[0] == '+') {
        s@.drop_first()
    } else {
        s@
    };
    proof {
        assert(forall|k: int| 0 <= k < digits.len() ==> digits[k] == s@[k + start]);
        assert(digits.len() == n - start);
    }
    if start >= n {
        return None;
    }
    // `acc` carries the negated value of the digits seen so far, so that the
    // most negative group id is still representable while accumulating.
    let mut acc: isize = 0;
    for j in iter: start..n
        invariant
            n == s@.len(),
            start <= j <= n,
            start <= 1,
            neg == (s@.len() > 0 && s@[0] == '-'),
            digits == (if s@.len() > 0 && (s@[0] == '-' || s@[0] == '+') {
                s@.drop_first()
            } else {
                s@
            }),
            digits.len() == n - start,
            forall|k: int| 0 <= k < digits.len() ==> digits[k] == s@[k + start],
            forall|k: int| 0 <= k < j - start ==> is_digit(#[trigger] digits[k]),
            acc == -digits_value(digits.take(j - start)),
    {
        let c = s.get_char(j);
        let cv = c as u32;
        if cv < 48 || cv > 57 {
            proof {
                assert(digits[j - start] == s@[j as int]);
                assert(!is_digit(digits[j - start]));
            }
            return None;
        }
        let d = (cv - 48) as isize;
        proof {
            assert(digits.take(j - start + 1).drop_last() =~= digits.take(j - start));
            assert(digits.take(j - start + 1).last() == digits[j - start]);
            assert(digits[j - start] == s@[j as int]);
        }
        let next = match acc.checked_mul(10) {
            Some(a) => match a.checked_sub(d) {
                Some(b) => Some(b),
                None => None,
            },
            None => None,
        };
        match next {
            Some(b) => {
                acc = b;
            },
            None => {
                // The value seen so far already exceeds the magnitude any
                // group id can have, whatever digits follow.
                proof {
                    let m = j - start + 1;
                    lemma_digits_value_nonneg(digits.take(j - start));
                    assert(digits_value(digits.take(m)) > -(isize::MIN as int));
                    if all_digits(digits) {
                        lemma_digits_value_prefix(digits, m);
                    }
                }
                return None;
            },
        }
    }
    proof {
        assert(digits.take(n - start) =~= digits);
    }
    if neg {
        Some(acc)
    } else {
        if acc == isize::MIN {
            proof {
                lemma_digits_value_nonneg(digits);
            }
            None
        } else {
            Some(-acc)
        }
    }
}

// ---------------------------------------------------------------------------
// Match rules and their grammar.
// ---------------------------------------------------------------------------

/// A rule that includes an event into a group when the named property's value
/// matches the pattern.
#[derive(Debug)]
pub struct MatchRule {
    pub group_id: isize,
    pub property: String,
    pub pattern: CompiledPattern,
}

/// The mathematical content of a match rule.
pub struct MatchRuleView {
    pub group_id: int,
    pub property: Seq<char>,
    pub pattern: Seq<char>,
}

impl View for MatchRule {
    type V = MatchRuleView;

    open spec fn view(&self) -> MatchRuleView {
        MatchRuleView {
            group_id: self.group_id as int,
            property: self.property@,
            pattern: self.pattern.src(),
        }
    }
}

/// Why a match rule failed to parse.
#[derive(Clone, Copy, Debug, PartialEq, Eq, Structural)]
pub enum MatchRuleParseError {
    /// No `=` separates the property name from the pattern.
    MissingEqualSign,
    /// The text before the first comma does not parse as a group id.
    GroupIdParseError,
    /// The pattern is not a valid regular expression.
    RegexParseError,
}

/// The match-rule grammar `[group_id,]property=pattern`: the group id is the
/// text before the first comma when one occurs (and defaults to 0 otherwise),
/// and the rest splits at its first `=` into property name and pattern.
pub open spec fn spec_match_rule(s: Seq<char>) -> Result<MatchRuleView, MatchRuleParseError> {
    let tail = match index_of_first(s, ',') {
        Some(i) => s.skip(i + 1),
        None => s,
    };
    match index_of_first(tail, '=') {
        None => Err(MatchRuleParseError::MissingEqualSign),
        Some(j) => {
            let gid = match index_of_first(s, ',') {
                Some(i) => spec_group_id(s.take(i)),
                None => Some(0int),
            };
            match gid {
                None => Err(MatchRuleParseError::GroupIdParseError),
                Some(g) => if !pattern_ok(tail.skip(j + 1)) {
                    Err(MatchRuleParseError::RegexParseError)
                } else {
                    Ok(
                        MatchRuleView {
                            group_id: g,
                            property: tail.take(j),
                            pattern: tail.skip(j + 1),
                        },
                    )
                },
            }
        },
    }
}

impl MatchRule {
    /// Parse `[group_id,]property=pattern`.
    pub fn parse(s: &str) -> (r: Result<MatchRule, MatchRuleParseError>)
        ensures
            r matches Ok(rule) ==> spec_match_rule(s@) == Ok::<
                MatchRuleView,
                MatchRuleParseError,
            >(rule@),
            r matches Err(e) ==> spec_match_rule(s@) == Err::<
                MatchRuleView,
                MatchRuleParseError,
            >(e),
    {
        let n = s.unicode_len();
        let comma = find_char(s, ',');
        let tail_start: usize = match comma {
            Some(i) => {
                proof {
                    lemma_index_of_first(s@, ',');
                }
                i + 1
            },
            None => 0,
        };
        let tail = s.substring_char(tail_start, n);
        proof {
            assert(tail@ =~= s@.skip(tail_start as int));
            assert(s@.skip(0) =~= s@);
        }
        match find_char(tail, '=') {
            None => Err(MatchRuleParseError::MissingEqualSign),
            Some(j) => {
                let group_id: isize = match comma {
                    Some(i) => {
                        let gtext = s.substring_char(0, i);
                        proof {
                            assert(gtext@ =~= s@.take(i as int));
                        }
                        match parse_group_id(gtext) {
                            Some(g) => g,
                            None => {
                                return Err(MatchRuleParseError::GroupIdParseError);
                            },
                        }
                    },
                    None => 0,
                };
                proof {
                    lemma_index_of_first(tail@, '=');
                }
                let tlen = tail.unicode_len();
                let prop = tail.substring_char(0, j);
                let pat = tail.substring_char(j + 1, tlen);
                proof {
                    assert(prop@ =~= tail@.take(j as int));
                    assert(pat@ =~= tail@.skip(j as int + 1));
                }
                match CompiledPattern::compile(pat) {
                    Some(cp) => Ok(
                        MatchRule { group_id, property: prop.to_owned(), pattern: cp },
                    ),
                    None => Err(MatchRuleParseError::RegexParseError),
                }
            },
        }
    }
}

// ---------------------------------------------------------------------------
// Match groups and the match tree.
// ---------------------------------------------------------------------------

/// First index of a rule for the given property name, if any.
pub open spec fn rule_index(g: Seq<MatchRuleView>, name: Seq<char>) -> Option<int>
    decreases g.len(),
{
    if g.len() == 0 {
        None
    } else if g[0].property == name {
        Some(0int)
    } else {
        match rule_index(g.drop_first(), name) {
            None => None,
            Some(i) => Some(i + 1),
        }
    }
}

/// `rule_index` really is the first index for the name, and `None` means no
/// rule carries it.
pub proof fn lemma_rule_index(g: Seq<MatchRuleView>, name: Seq<char>)
    ensures
        match rule_index(g, name) {
            Some(i) => 0 <= i < g.len() && g[i].property == name && (forall|j: int|
                0 <= j < i ==> g[j].property != name),
            None => forall|j: int| 0 <= j < g.len() ==> g[j].property != name,
        },
    decreases g.len(),
{
    if g.len() > 0 && g[0].property != name {
        lemma_rule_index(g.drop_first(), name);
        match rule_index(g.drop_first(), name) {
            Some(i) => {
                assert(g[i + 1] == g.drop_first()[i]);
                assert forall|j: int| 0 <= j < i + 1 implies g[j].property != name by {
                    if j > 0 {
                        assert(g[j] == g.drop_first()[j - 1]);
                    }
                }
            },
            None => {
                assert forall|j: int| 0 <= j < g.len() implies g[j].property != name by {
                    if j > 0 {
                        assert(g[j] == g.drop_first()[j - 1]);
                    }
                }
            },
        }
    }
}

/// Fold one rule into a group's rule list: overwrite the rule for the same
/// property name, else append (last write wins).
pub open spec fn group_add(g: Seq<MatchRuleView>, r: MatchRuleView) -> Seq<MatchRuleView> {
    match rule_index(g, r.property) {
        Some(i) => g.update(i, r),
        None => g.push(r),
    }
}

/// Whether one property satisfies a rule: it carries the rule's exact name
/// and a value the rule's pattern matches. A property without a value
/// satisfies no rule.
pub open spec fn prop_satisfies(p: Property, r: MatchRuleView) -> bool {
    p.name@ == r.property && p.value is Some && pattern_matches(r.pattern, p.value->Some_0@)
}

/// One property rule is satisfied by an event: some property of the event
/// with the rule's exact name carries a value the pattern matches.
pub open spec fn rule_satisfied(r: MatchRuleView, props: Seq<Property>) -> bool {
    exists|j: int| 0 <= j < props.len() && prop_satisfies(#[trigger] props[j], r)
}

/// A group matches when every one of its property rules is satisfied; a group
/// with no rules matches vacuously.
pub open spec fn group_matches(g: Seq<MatchRuleView>, props: Seq<Property>) -> bool {
    forall|i: int| 0 <= i < g.len() ==> rule_satisfied(#[trigger] g[i], props)
}

/// Whether some property of the event satisfies the rule, scanning every
/// property of the rule's name.
fn rule_is_satisfied(rule: &MatchRule, event: &Event) -> (r: bool)
    ensures
        r == rule_satisfied(rule@, event@),
{
    let n = event.properties.len();
    for j in 0..n
        invariant
            n == event.properties.len(),
            forall|k: int| 0 <= k < j ==> !prop_satisfies(#[trigger] event@[k], rule@),
    {
        let p = &event.properties[j];
        if str_eq(p.name.as_str(), rule.property.as_str()) {
            match &p.value {
                Some(v) => {
                    if rule.pattern.matches(v.as_str()) {
                        proof {
                            assert(prop_satisfies(event@[j as int], rule@));
                        }
                        return true;
                    }
                },
                None => {},
            }
        }
        proof {
            assert(!prop_satisfies(event@[j as int], rule@));
        }
    }
    false
}

/// The inclusion rules of one group: at most one rule per property name.
#[derive(Debug)]
pub struct MatchGroup {
    rules: Vec<MatchRule>,
}

impl View for MatchGroup {
    type V = Seq<MatchRuleView>;

    closed spec fn view(&self) -> Seq<MatchRuleView> {
        self.rules@.map_values(|r: MatchRule| r@)
    }
}

impl Default for MatchGroup {
    /// The empty group: it has no property rules, so it matches every event.
    fn default() -> (g: MatchGroup)
        ensures
            g@ =~= Seq::<MatchRuleView>::empty(),
    {
        MatchGroup { rules: Vec::new() }
    }
}

impl MatchGroup {
    /// Insert one rule, overwriting an existing rule for the same property
    /// name: the last write wins.
    fn add_rule(&mut self, rule: MatchRule)
        ensures
            final(self)@ =~= group_add(old(self)@, rule@),
    {
        let n = self.rules.len();
        for i in 0..n
            invariant
                n == self.rules.len(),
                *self == *old(self),
                forall|k: int| 0 <= k < i ==> self@[k].property != rule@.property,
        {
            let p = &self.rules[i];
            proof {
                assert(self@[i as int] == self.rules@[i as int]@);
            }
            if str_eq(p.property.as_str(), rule.property.as_str()) {
                proof {
                    lemma_rule_index(self@, rule@.property);
                }
                let _replaced = self.rules.remove(i);
                self.rules.insert(i, rule);
                proof {
                    assert(self@ =~= group_add(old(self)@, rule@));
                }
                return ;
            }
        }
        proof {
            lemma_rule_index(self@, rule@.property);
        }
        self.rules.push(rule);
        proof {
            assert(self@ =~= group_add(old(self)@, rule@));
        }
    }

    /// Whether every property rule of this group is satisfied by the event.
    pub fn is_match(&self, event: &Event) -> (r: bool)
        ensures
            r == group_matches(self@, event@),
    {
        let n = self.rules.len();
        for i in 0..n
            invariant
                n == self.rules.len(),
                forall|k: int| 0 <= k < i ==> rule_satisfied(#[trigger] self@[k], event@),
        {
            let rule = &self.rules[i];
            proof {
                assert(self@[i as int] == self.rules@[i as int]@);
            }
            let sat = rule_is_satisfied(rule, event);
            if !sat {
                proof {
                    assert(!rule_satisfied(self@[i as int], event@));
                }
                return false;
            }
        }
        true
    }
}

/// One entry of a match tree: a group id with the group's rules.
#[derive(Debug)]
pub struct MatchEntry {
    pub group_id: isize,
    pub group: MatchGroup,
}

/// The mathematical content of one tree entry.
pub struct MatchEntryView {
    pub group_id: int,
    pub rules: Seq<MatchRuleView>,
}

impl View for MatchEntry {
    type V = MatchEntryView;

    open spec fn view(&self) -> MatchEntryView {
        MatchEntryView { group_id: self.group_id as int, rules: self.group@ }
    }
}

/// First index of the entry for a group id, if any.
pub open spec fn group_index(t: Seq<MatchEntryView>, id: int) -> Option<int>
    decreases t.len(),
{
    if t.len() == 0 {
        None
    } else if t[0].group_id == id {
        Some(0int)
    } else {
        match group_index(t.drop_first(), id) {
            None => None,
            Some(i) => Some(i + 1),
        }
    }
}

/// `group_index` really is the first index for the id, and `None` means the
/// id has no entry.
pub proof fn lemma_group_index(t: Seq<MatchEntryView>, id: int)
    ensures
        match group_index(t, id) {
            Some(i) => 0 <= i < t.len() && t[i].group_id == id && (forall|j: int|
                0 <= j < i ==> t[j].group_id != id),
            None => forall|j: int| 0 <= j < t.len() ==> t[j].group_id != id,
        },
    decreases t.len(),
{
    if t.len() > 0 && t[0].group_id != id {
        lemma_group_index(t.drop_first(), id);
        match group_index(t.drop_first(), id) {
            Some(i) => {
                assert(t[i + 1] == t.drop_first()[i]);
                assert forall|j: int| 0 <= j < i + 1 implies t[j].group_id != id by {
                    if j > 0 {
                        assert(t[j] == t.drop_first()[j - 1]);
                    }
                }
            },
            None => {
                assert forall|j: int| 0 <= j < t.len() implies t[j].group_id != id by {
                    if j > 0 {
                        assert(t[j] == t.drop_first()[j - 1]);
                    }
                }
            },
        }
    }
}

/// Fold one rule into the tree: extend the rule's group, creating the group's
/// entry at the end when the id is new.
pub open spec fn tree_add(t: Seq<MatchEntryView>, r: MatchRuleView) -> Seq<MatchEntryView> {
    match group_index(t, r.group_id) {
        Some(i) => t.update(
            i,
            MatchEntryView { group_id: t[i].group_id, rules: group_add(t[i].rules, r) },
        ),
        None => t.push(MatchEntryView { group_id: r.group_id, rules: seq![r] }),
    }
}

/// The tree a rule list builds, folding the rules from the left.
pub open spec fn build_tree(rules: Seq<MatchRuleView>) -> Seq<MatchEntryView>
    decreases rules.len(),
{
    if rules.len() == 0 {
        Seq::empty()
    } else {
        tree_add(build_tree(rules.drop_last()), rules.last())
    }
}

/// The group an event is classified into: the id of the first entry whose
/// rules all match, or `None` when no entry matches.
pub open spec fn spec_classify(t: Seq<MatchEntryView>, props: Seq<Property>) -> Option<int>
    decreases t.len(),
{
    if t.len() == 0 {
        None
    } else if group_matches(t[0].rules, props) {
        Some(t[0].group_id)
    } else {
        spec_classify(t.drop_first(), props)
    }
}

/// Inclusion rules grouped by group id. Entries stand in order of each id's
/// first appearance in the rule list the tree was built from, and
/// classification scans them in that order.
#[derive(Debug)]
pub struct MatchTree {
    groups: Vec<MatchEntry>,
}

impl View for MatchTree {
    type V = Seq<MatchEntryView>;

    closed spec fn view(&self) -> Seq<MatchEntryView> {
        self.groups@.map_values(|e: MatchEntry| e@)
    }
}

impl Default for MatchTree {
    /// The empty tree: it classifies every event as belonging to no group.
    fn default() -> (t: MatchTree)
        ensures
            t@ =~= Seq::<MatchEntryView>::empty(),
    {
        MatchTree { groups: Vec::new() }
    }
}

impl MatchTree {
    /// Fold one rule into the tree.
    fn add(&mut self, rule: MatchRule)
        ensures
            final(self)@ =~= tree_add(old(self)@, rule@),
    {
        let n = self.groups.len();
        for i in 0..n
            invariant
                n == self.groups.len(),
                *self == *old(self),
                forall|k: int| 0 <= k < i ==> self@[k].group_id != rule@.group_id,
        {
            proof {
                assert(self@[i as int] == self.groups@[i as int]@);
            }
            if self.groups[i].group_id == rule.group_id {
                proof {
                    lemma_group_index(self@, rule@.group_id);
                }
                let mut entry = self.groups.remove(i);
                entry.group.add_rule(rule);
                self.groups.insert(i, entry);
                proof {
                    assert(self@ =~= tree_add(old(self)@, rule@));
                }
                return ;
            }
        }
        proof {
            lemma_group_index(self@, rule@.group_id);
        }
        let group_id = rule.group_id;
        let mut group = MatchGroup::default();
        group.add_rule(rule);
        self.groups.push(MatchEntry { group_id, group });
        proof {
            assert(self@ =~= tree_add(old(self)@, rule@));
        }
    }

    /// Build a tree from a rule list; a later rule for the same group id and
    /// property name overwrites the earlier pattern.
    pub fn from_rules(rules: Vec<MatchRule>) -> (t: MatchTree)
        ensures
            t@ =~= build_tree(rules@.map_values(|r: MatchRule| r@)),
    {
        let ghost all: Seq<MatchRuleView> = rules@.map_values(|r: MatchRule| r@);
        let mut t = MatchTree { groups: Vec::new() };
        let mut rest = rules;
        proof {
            assert(all.take(0) =~= Seq::<MatchRuleView>::empty());
            assert(rest@.map_values(|r: MatchRule| r@) =~= all.skip(0));
        }
        while rest.len() > 0
            invariant
                rest@.len() <= all.len(),
                rest@.map_values(|r: MatchRule| r@) =~= all.skip(all.len() - rest@.len()),
                t@ =~= build_tree(all.take(all.len() - rest@.len())),
            decreases rest.len(),
        {
            let ghost i = all.len() - rest@.len();
            let rule = rest.remove(0);
            proof {
                assert(rule@ == all.skip(i)[0]);
                assert(rule@ == all[i]);
                assert forall|k: int| 0 <= k < rest@.len() implies #[trigger] rest@[k]@ == all.skip(
                    i + 1,
                )[k] by {
                    assert(rest@[k]@ == all.skip(i)[k + 1]);
                }
                assert(rest@.map_values(|r: MatchRule| r@) =~= all.skip(i + 1));
            }
            t.add(rule);
            proof {
                assert(all.take(i + 1).drop_last() =~= all.take(i));
                assert(all.take(i + 1).last() == all[i]);
                assert(t@ =~= build_tree(all.take(i + 1)));
            }
        }
        proof {
            assert(all.take(all.len() as int) =~= all);
        }
        t
    }

    /// The id of the first group whose rules the event satisfies.
    pub fn is_match(&self, event: &Event) -> (r: Option<isize>)
        ensures
            match r {
                Some(g) => spec_classify(self@, event@) == Some(g as int),
                None => spec_classify(self@, event@) is None,
            },
    {
        let n = self.groups.len();
        proof {
            assert(self@.skip(0) =~= self@);
        }
        for i in 0..n
            invariant
                n == self.groups.len(),
                spec_classify(self@, event@) == spec_classify(self@.skip(i as int), event@),
        {
            let entry = &self.groups[i];
            proof {
                assert(self@[i as int] == self.groups@[i as int]@);
                assert(self@.skip(i as int)[0] == self@[i as int]);
            }
            if entry.group.is_match(event) {
                return Some(entry.group_id);
            }
            proof {
                assert(self@.skip(i as int).drop_first() =~= self@.skip(i as int + 1));
            }
        }
        proof {
            assert(self@.skip(n as int) =~= Seq::<MatchEntryView>::empty());
        }
        None
    }
}

// ---------------------------------------------------------------------------
// Remove rules: date-window exclusion.
// ---------------------------------------------------------------------------

/// A rule that excludes an already-classified event when its start date falls
/// inside the declared window. With `single_day` set, the window is exactly
/// `start_date`; otherwise it runs from `start_date` to `end_date` inclusive,
/// a missing bound leaving that side open.
#[derive(Clone, Copy, Debug)]
pub struct RemoveMatchRule {
    pub group_id: isize,
    pub single_day: bool,
    pub start_date: Option<Date>,
    pub end_date: Option<Date>,
}

/// Whether the rule's window covers a date.
pub open spec fn spec_rule_covers(r: RemoveMatchRule, d: Date) -> bool {
    if r.single_day {
        match r.start_date {
            Some(sd) => sd == d,
            None => false,
        }
    } else {
        match (r.start_date, r.end_date) {
            (Some(sd), Some(ed)) => date_le(sd, d) && date_le(d, ed),
            (None, Some(ed)) => date_le(d, ed),
            (Some(sd), None) => date_le(sd, d),
            (None, None) => true,
        }
    }
}

/// Whether the rule excludes an event: the event's start date must be
/// readable and fall inside the window. An event whose start date cannot be
/// derived is not excluded by any rule.
pub open spec fn spec_rule_excludes(r: RemoveMatchRule, props: Seq<Property>) -> bool {
    match spec_dtstart(props) {
        Ok(t) => spec_rule_covers(r, ts_date(t)),
        Err(_) => false,
    }
}

/// Why a remove rule failed to parse.
#[derive(Clone, Copy, Debug, PartialEq, Eq, Structural)]
pub enum RemoveRuleParseError {
    /// The text before the first comma does not parse as a group id.
    GroupIdParseError,
    /// A date field does not parse as `YYYY-MM-DD`.
    DateParseError,
}

/// The remove-rule grammar `group_id[,start_date[,end_date]]`: at most three
/// fields, split at the first two commas (the third field keeps any further
/// commas). One field is an unrestricted window, two are a single-day window,
/// three are a range whose empty sides are open.
pub open spec fn spec_remove_rule(s: Seq<char>) -> Result<RemoveMatchRule, RemoveRuleParseError> {
    let gtext = match index_of_first(s, ',') {
        Some(i) => s.take(i),
        None => s,
    };
    match spec_group_id(gtext) {
        None => Err(RemoveRuleParseError::GroupIdParseError),
        Some(g) => match index_of_first(s, ',') {
            None => Ok(
                RemoveMatchRule {
                    group_id: g as isize,
                    single_day: false,
                    start_date: None,
                    end_date: None,
                },
            ),
            Some(i) => {
                let rest = s.skip(i + 1);
                match index_of_first(rest, ',') {
                    None => match parsed_date(rest) {
                        None => Err(RemoveRuleParseError::DateParseError),
                        Some(d) => Ok(
                            RemoveMatchRule {
                                group_id: g as isize,
                                single_day: true,
                                start_date: Some(d),
                                end_date: None,
                            },
                        ),
                    },
                    Some(j) => {
                        let f1 = rest.take(j);
                        let f2 = rest.skip(j + 1);
                        if f1.len() > 0 && parsed_date(f1) is None {
                            Err(RemoveRuleParseError::DateParseError)
                        } else if f2.len() > 0 && parsed_date(f2) is None {
                            Err(RemoveRuleParseError::DateParseError)
                        } else {
                            Ok(
                                RemoveMatchRule {
                                    group_id: g as isize,
                                    single_day: false,
                                    start_date: if f1.len() == 0 {
                                        None
                                    } else {
                                        parsed_date(f1)
                                    },
                                    end_date: if f2.len() == 0 {
                                        None
                                    } else {
                                        parsed_date(f2)
                                    },
                                },
                            )
                        }
                    },
                }
            },
        },
    }
}

impl RemoveMatchRule {
    /// Parse `group_id[,start_date[,end_date]]`.
    pub fn parse(s: &str) -> (r: Result<RemoveMatchRule, RemoveRuleParseError>)
        ensures
            r matches Ok(rule) ==> spec_remove_rule(s@) == Ok::<
                RemoveMatchRule,
                RemoveRuleParseError,
            >(rule),
            r matches Err(e) ==> spec_remove_rule(s@) == Err::<
                RemoveMatchRule,
                RemoveRuleParseError,
            >(e),
    {
        let n = s.unicode_len();
        let comma = find_char(s, ',');
        let group_id: isize = {
            let parsed = match comma {
                Some(i) => {
                    proof {
                        lemma_index_of_first(s@, ',');
                    }
                    let gtext = s.substring_char(0, i);
                    proof {
                        assert(gtext@ =~= s@.take(i as int));
                    }
                    parse_group_id(gtext)
                },
                None => parse_group_id(s),
            };
            match parsed {
                Some(g) => g,
                None => {
                    return Err(RemoveRuleParseError::GroupIdParseError);
                },
            }
        };
        match comma {
            None => Ok(
                RemoveMatchRule { group_id, single_day: false, start_date: None, end_date: None },
            ),
            Some(i) => {
                proof {
                    lemma_index_of_first(s@, ',');
                }
                let rest = s.substring_char(i + 1, n);
                proof {
                    assert(rest@ =~= s@.skip(i as int + 1));
                }
                match find_char(rest, ',') {
                    None => match parse_date(rest) {
                        Some(d) => Ok(
                            RemoveMatchRule {
                                group_id,
                                single_day: true,
                                start_date: Some(d),
                                end_date: None,
                            },
                        ),
                        None => Err(RemoveRuleParseError::DateParseError),
                    },
                    Some(j) => {
                        proof {
                            lemma_index_of_first(rest@, ',');
                        }
                        let rlen = rest.unicode_len();
                        let f1 = rest.substring_char(0, j);
                        let f2 = rest.substring_char(j + 1, rlen);
                        proof {
                            assert(f1@ =~= rest@.take(j as int));
                            assert(f2@ =~= rest@.skip(j as int + 1));
                        }
                        let start_date = if f1.unicode_len() == 0 {
                            None
                        } else {
                            match parse_date(f1) {
                                Some(d) => Some(d),
                                None => {
                                    return Err(RemoveRuleParseError::DateParseError);
                                },
                            }
                        };
                        let end_date = if f2.unicode_len() == 0 {
                            None
                        } else {
                            match parse_date(f2) {
                                Some(d) => Some(d),
                                None => {
                                    return Err(RemoveRuleParseError::DateParseError);
                                },
                            }
                        };
                        Ok(RemoveMatchRule { group_id, single_day: false, start_date, end_date })
                    },
                }
            },
        }
    }

    /// Whether the window covers the given date.
    pub fn covers(&self, d: &Date) -> (r: bool)
        ensures
            r == spec_rule_covers(*self, *d),
    {
        if self.single_day {
            match &self.start_date {
                Some(sd) => *sd == *d,
                None => false,
            }
        } else {
            match (&self.start_date, &self.end_date) {
                (Some(sd), Some(ed)) => sd.on_or_before(d) && d.on_or_before(ed),
                (None, Some(ed)) => d.on_or_before(ed),
                (Some(sd), None) => sd.on_or_before(d),
                (None, None) => true,
            }
        }
    }

    /// Whether the rule excludes the event: its start date is readable and
    /// falls inside the window.
    pub fn is_match(&self, event: &Event) -> (r: bool)
        ensures
            r == spec_rule_excludes(*self, event@),
    {
        match event.dtstart() {
            Ok(t) => {
                let d = t.date();
                self.covers(&d)
            },
            Err(_) => false,
        }
    }
}

// ---------------------------------------------------------------------------
// The remove tree.
// ---------------------------------------------------------------------------

/// One entry of a remove tree: a group id with that group's rules, in input
/// order.
#[derive(Debug)]
pub struct RemoveEntry {
    pub group_id: isize,
    pub rules: Vec<RemoveMatchRule>,
}

/// The mathematical content of one remove-tree entry.
pub struct RemoveEntryView {
    pub group_id: int,
    pub rules: Seq<RemoveMatchRule>,
}

impl View for RemoveEntry {
    type V = RemoveEntryView;

    open spec fn view(&self) -> RemoveEntryView {
        RemoveEntryView { group_id: self.group_id as int, rules: self.rules@ }
    }
}

/// First index of the remove entry for a group id, if any.
pub open spec fn remove_index(t: Seq<RemoveEntryView>, id: int) -> Option<int>
    decreases t.len(),
{
    if t.len() == 0 {
        None
    } else if t[0].group_id == id {
        Some(0int)
    } else {
        match remove_index(t.drop_first(), id) {
            None => None,
            Some(i) => Some(i + 1),
        }
    }
}

/// `remove_index` really is the first index for the id, and `None` means the
/// id has no entry.
pub proof fn lemma_remove_index(t: Seq<RemoveEntryView>, id: int)
    ensures
        match remove_index(t, id) {
            Some(i) => 0 <= i < t.len() && t[i].group_id == id && (forall|j: int|
                0 <= j < i ==> t[j].group_id != id),
            None => forall|j: int| 0 <= j < t.len() ==> t[j].group_id != id,
        },
    decreases t.len(),
{
    if t.len() > 0 && t[0].group_id != id {
        lemma_remove_index(t.drop_first(), id);
        match remove_index(t.drop_first(), id) {
            Some(i) => {
                assert(t[i + 1] == t.drop_first()[i]);
                assert forall|j: int| 0 <= j < i + 1 implies t[j].group_id != id by {
                    if j > 0 {
                        assert(t[j] == t.drop_first()[j - 1]);
                    }
                }
            },
            None => {
                assert forall|j: int| 0 <= j < t.len() implies t[j].group_id != id by {
                    if j > 0 {
                        assert(t[j] == t.drop_first()[j - 1]);
                    }
                }
            },
        }
    }
}

/// Fold one rule into the remove tree: append it to its group's rule list,
/// creating the entry at the end when the id is new.
pub open spec fn remove_add(t: Seq<RemoveEntryView>, r: RemoveMatchRule) -> Seq<RemoveEntryView> {
    match remove_index(t, r.group_id as int) {
        Some(i) => t.update(
            i,
            RemoveEntryView { group_id: t[i].group_id, rules: t[i].rules.push(r) },
        ),
        None => t.push(RemoveEntryView { group_id: r.group_id as int, rules: seq![r] }),
    }
}

/// The remove tree a rule list builds, folding the rules from the left.
pub open spec fn build_remove_tree(rules: Seq<RemoveMatchRule>) -> Seq<RemoveEntryView>
    decreases rules.len(),
{
    if rules.len() == 0 {
        Seq::empty()
    } else {
        remove_add(build_remove_tree(rules.drop_last()), rules.last())
    }
}

/// Whether any rule of the list excludes the event.
pub open spec fn any_rule_excludes(rules: Seq<RemoveMatchRule>, props: Seq<Property>) -> bool {
    exists|k: int| 0 <= k < rules.len() && spec_rule_excludes(#[trigger] rules[k], props)
}

/// The tree's decision for a group and an event: `None` when the group has no
/// entry, else whether any of the entry's rules excludes the event.
pub open spec fn spec_remove_decision(
    t: Seq<RemoveEntryView>,
    id: int,
    props: Seq<Property>,
) -> Option<bool> {
    match remove_index(t, id) {
        None => None,
        Some(i) => Some(any_rule_excludes(t[i].rules, props)),
    }
}

/// Exclusion rules grouped by group id; group `-1` is the wildcard whose
/// rules apply to every classified event.
#[derive(Debug)]
pub struct RemoveTree {
    entries: Vec<RemoveEntry>,
}

impl View for RemoveTree {
    type V = Seq<RemoveEntryView>;

    closed spec fn view(&self) -> Seq<RemoveEntryView> {
        self.entries@.map_values(|e: RemoveEntry| e@)
    }
}

impl Default for RemoveTree {
    /// The empty tree: it holds no exclusion window for any group.
    fn default() -> (t: RemoveTree)
        ensures
            t@ =~= Seq::<RemoveEntryView>::empty(),
    {
        RemoveTree { entries: Vec::new() }
    }
}

impl RemoveTree {
    /// Fold one rule into the tree.
    fn add(&mut self, rule: RemoveMatchRule)
        ensures
            final(self)@ =~= remove_add(old(self)@, rule),
    {
        let n = self.entries.len();
        for i in 0..n
            invariant
                n == self.entries.len(),
                *self == *old(self),
                forall|k: int| 0 <= k < i ==> self@[k].group_id != rule.group_id as int,
        {
            proof {
                assert(self@[i as int] == self.entries@[i as int]@);
            }
            if self.entries[i].group_id == rule.group_id {
                proof {
                    lemma_remove_index(self@, rule.group_id as int);
                }
                let mut entry = self.entries.remove(i);
                entry.rules.push(rule);
                self.entries.insert(i, entry);
                proof {
                    assert(self@ =~= remove_add(old(self)@, rule));
                }
                return ;
            }
        }
        proof {
            lemma_remove_index(self@, rule.group_id as int);
        }
        let mut rules = Vec::new();
        rules.push(rule);
        self.entries.push(RemoveEntry { group_id: rule.group_id, rules });
        proof {
            assert(self@ =~= remove_add(old(self)@, rule));
        }
    }

    /// Build the tree from a rule list, keeping each group's rules in input
    /// order.
    pub fn from_rules(rules: Vec<RemoveMatchRule>) -> (t: RemoveTree)
        ensures
            t@ =~= build_remove_tree(rules@),
    {
        let ghost all: Seq<RemoveMatchRule> = rules@;
        let mut t = RemoveTree { entries: Vec::new() };
        let mut rest = rules;
        proof {
            assert(all.take(0) =~= Seq::<RemoveMatchRule>::empty());
            assert(rest@ =~= all.skip(0));
        }
        while rest.len() > 0
            invariant
                rest@.len() <= all.len(),
                rest@ =~= all.skip(all.len() - rest@.len()),
                t@ =~= build_remove_tree(all.take(all.len() - rest@.len())),
            decreases rest.len(),
        {
            let ghost i = all.len() - rest@.len();
            let rule = rest.remove(0);
            proof {
                assert(rule == all.skip(i)[0]);
                assert(rule == all[i]);
                assert forall|k: int| 0 <= k < rest@.len() implies #[trigger] rest@[k] == all.skip(
                    i + 1,
                )[k] by {
                    assert(rest@[k] == all.skip(i)[k + 1]);
                }
                assert(rest@ =~= all.skip(i + 1));
            }
            t.add(rule);
            proof {
                assert(all.take(i + 1).drop_last() =~= all.take(i));
                assert(all.take(i + 1).last() == all[i]);
                assert(t@ =~= build_remove_tree(all.take(i + 1)));
            }
        }
        proof {
            assert(all.take(all.len() as int) =~= all);
        }
        t
    }

    /// The tree's decision for a group and an event: `None` when the group
    /// has no rules, else whether any of its rules excludes the event.
    pub fn is_match(&self, group: isize, event: &Event) -> (r: Option<bool>)
        ensures
            r == spec_remove_decision(self@, group as int, event@),
    {
        let n = self.entries.len();
        for i in 0..n
            invariant
                n == self.entries.len(),
                forall|k: int| 0 <= k < i ==> self@[k].group_id != group as int,
        {
            proof {
                assert(self@[i as int] == self.entries@[i as int]@);
            }
            if self.entries[i].group_id == group {
                proof {
                    lemma_remove_index(self@, group as int);
                }
                let entry = &self.entries[i];
                let m = entry.rules.len();
                for k in 0..m
                    invariant
                        n == self.entries.len(),
                        i < n,
                        self@.len() == n,
                        m == entry.rules.len(),
                        entry.rules@ == self@[i as int].rules,
                        remove_index(self@, group as int) == Some(i as int),
                        forall|j: int|
                            0 <= j < k ==> !spec_rule_excludes(
                                #[trigger] entry.rules@[j],
                                event@,
                            ),
                {
                    let rule = &entry.rules[k];
                    if rule.is_match(event) {
                        proof {
                            assert((k as int) < self@[i as int].rules.len());
                            assert(spec_rule_excludes(self@[i as int].rules[k as int], event@));
                            assert(any_rule_excludes(self@[i as int].rules, event@));
                        }
                        return Some(true);
                    }
                }
                proof {
                    assert forall|k: int|
                        0 <= k < self@[i as int].rules.len() implies !spec_rule_excludes(
                        #[trigger] self@[i as int].rules[k],
                        event@,
                    ) by {
                        assert(self@[i as int].rules[k] == entry.rules@[k]);
                    }
                    assert(!any_rule_excludes(self@[i as int].rules, event@));
                }
                return Some(false);
            }
        }
        proof {
            lemma_remove_index(self@, group as int);
        }
        None
    }
}

// ---------------------------------------------------------------------------
// Laws of classification and of the built trees.
// ---------------------------------------------------------------------------

/// Classification is sound, and rejection complete: a returned group id
/// names an entry every one of whose property rules the event satisfies,
/// while `None` means no entry's full rule set is satisfied.
pub proof fn lemma_classify_sound(t: Seq<MatchEntryView>, props: Seq<Property>)
    ensures
        spec_classify(t, props) matches Some(g) ==> exists|i: int|
            0 <= i < t.len() && (#[trigger] t[i]).group_id == g && group_matches(t[i].rules, props),
        spec_classify(t, props) is None ==> forall|i: int|
            0 <= i < t.len() ==> !group_matches((#[trigger] t[i]).rules, props),
    decreases t.len(),
{
    if t.len() > 0 {
        if group_matches(t[0].rules, props) {
            assert((#[trigger] t[0]).group_id == spec_classify(t, props)->Some_0);
        } else {
            lemma_classify_sound(t.drop_first(), props);
            match spec_classify(t, props) {
                Some(g) => {
                    let j = choose|j: int|
                        0 <= j < t.drop_first().len() && (#[trigger] t.drop_first()[j]).group_id
                            == g && group_matches(t.drop_first()[j].rules, props);
                    assert(t[j + 1] == t.drop_first()[j]);
                },
                None => {
                    assert forall|i: int|
                        0 <= i < t.len() implies !group_matches(
                        (#[trigger] t[i]).rules,
                        props,
                    ) by {
                        if i > 0 {
                            assert(t[i] == t.drop_first()[i - 1]);
                        }
                    }
                },
            }
        }
    }
}

/// Vacuous truth: a group with no property rules matches every event.
pub proof fn lemma_empty_group_matches(props: Seq<Property>)
    ensures
        group_matches(Seq::<MatchRuleView>::empty(), props),
{
}

/// A tree holding an entry with no property rules classifies every event
/// into some group.
pub proof fn lemma_empty_group_classifies(t: Seq<MatchEntryView>, props: Seq<Property>)
    requires
        exists|i: int| 0 <= i < t.len() && (#[trigger] t[i]).rules.len() == 0,
    ensures
        spec_classify(t, props) is Some,
    decreases t.len(),
{
    let w = choose|i: int| 0 <= i < t.len() && (#[trigger] t[i]).rules.len() == 0;
    if !group_matches(t[0].rules, props) {
        assert(t[0].rules.len() != 0);
        assert(t.drop_first()[w - 1] == t[w]);
        lemma_empty_group_classifies(t.drop_first(), props);
    }
}

/// The pattern a rule list holds for a property name, if any.
pub open spec fn group_lookup(rules: Seq<MatchRuleView>, p: Seq<char>) -> Option<Seq<char>> {
    match rule_index(rules, p) {
        None => None,
        Some(k) => Some(rules[k].pattern),
    }
}

/// The pattern a tree holds for a group id and a property name, if any.
pub open spec fn tree_lookup(t: Seq<MatchEntryView>, g: int, p: Seq<char>) -> Option<Seq<char>> {
    match group_index(t, g) {
        None => None,
        Some(i) => group_lookup(t[i].rules, p),
    }
}

/// The pattern of the last rule in a list carrying the pair, if any.
pub open spec fn rules_lookup(rules: Seq<MatchRuleView>, g: int, p: Seq<char>) -> Option<Seq<char>>
    decreases rules.len(),
{
    if rules.len() == 0 {
        None
    } else if rules.last().group_id == g && rules.last().property == p {
        Some(rules.last().pattern)
    } else {
        rules_lookup(rules.drop_last(), g, p)
    }
}

/// `rule_index` looks only at the property names.
proof fn lemma_rule_index_names(a: Seq<MatchRuleView>, b: Seq<MatchRuleView>, p: Seq<char>)
    requires
        a.len() == b.len(),
        forall|k: int| 0 <= k < a.len() ==> (#[trigger] a[k]).property == b[k].property,
    ensures
        rule_index(a, p) == rule_index(b, p),
    decreases a.len(),
{
    if a.len() > 0 && a[0].property != p {
        assert(forall|k: int|
            0 <= k < a.drop_first().len() ==> (#[trigger] a.drop_first()[k]).property == a[k
                + 1].property);
        assert(forall|k: int|
            0 <= k < b.drop_first().len() ==> (#[trigger] b.drop_first()[k]).property == b[k
                + 1].property);
        lemma_rule_index_names(a.drop_first(), b.drop_first(), p);
    }
}

/// Appending a rule leaves earlier lookups alone and resolves the appended
/// name when it was absent.
proof fn lemma_rule_index_push(rules: Seq<MatchRuleView>, r: MatchRuleView, p: Seq<char>)
    ensures
        rule_index(rules.push(r), p) == match rule_index(rules, p) {
            Some(k) => Some(k),
            None => if r.property == p {
                Some(rules.len() as int)
            } else {
                None
            },
        },
    decreases rules.len(),
{
    if rules.len() == 0 {
        assert(rules.push(r)[0] == r);
        assert(rules.push(r).drop_first() =~= Seq::<MatchRuleView>::empty());
    } else {
        assert(rules.push(r)[0] == rules[0]);
        assert(rules.push(r).drop_first() =~= rules.drop_first().push(r));
        lemma_rule_index_push(rules.drop_first(), r, p);
    }
}

/// What `group_add` does to lookups: the added rule's name now maps to its
/// pattern, every other name is untouched.
proof fn lemma_group_add_lookup(rules: Seq<MatchRuleView>, r: MatchRuleView, p: Seq<char>)
    ensures
        group_lookup(group_add(rules, r), p) == if p == r.property {
            Some(r.pattern)
        } else {
            group_lookup(rules, p)
        },
{
    lemma_rule_index(rules, r.property);
    lemma_rule_index(rules, p);
    match rule_index(rules, r.property) {
        Some(i) => {
            let s2 = rules.update(i, r);
            assert(forall|k: int| 0 <= k < s2.len() ==> (#[trigger] rules[k]).property == s2[k].property);
            lemma_rule_index_names(rules, s2, p);
        },
        None => {
            lemma_rule_index_push(rules, r, p);
        },
    }
}

/// `group_index` looks only at the group ids.
proof fn lemma_group_index_ids(a: Seq<MatchEntryView>, b: Seq<MatchEntryView>, g: int)
    requires
        a.len() == b.len(),
        forall|k: int| 0 <= k < a.len() ==> (#[trigger] a[k]).group_id == b[k].group_id,
    ensures
        group_index(a, g) == group_index(b, g),
    decreases a.len(),
{
    if a.len() > 0 && a[0].group_id != g {
        assert(forall|k: int|
            0 <= k < a.drop_first().len() ==> (#[trigger] a.drop_first()[k]).group_id == a[k
                + 1].group_id);
        assert(forall|k: int|
            0 <= k < b.drop_first().len() ==> (#[trigger] b.drop_first()[k]).group_id == b[k
                + 1].group_id);
        lemma_group_index_ids(a.drop_first(), b.drop_first(), g);
    }
}

/// Appending an entry leaves earlier lookups alone and resolves the appended
/// id when it was absent.
proof fn lemma_group_index_push(t: Seq<MatchEntryView>, e: MatchEntryView, g: int)
    ensures
        group_index(t.push(e), g) == match group_index(t, g) {
            Some(k) => Some(k),
            None => if e.group_id == g {
                Some(t.len() as int)
            } else {
                None
            },
        },
    decreases t.len(),
{
    if t.len() == 0 {
        assert(t.push(e)[0] == e);
        assert(t.push(e).drop_first() =~= Seq::<MatchEntryView>::empty());
    } else {
        assert(t.push(e)[0] == t[0]);
        assert(t.push(e).drop_first() =~= t.drop_first().push(e));
        lemma_group_index_push(t.drop_first(), e, g);
    }
}

/// What `tree_add` does to lookups: the added rule's pair now maps to its
/// pattern, every other pair is untouched.
proof fn lemma_tree_add_lookup(t: Seq<MatchEntryView>, r: MatchRuleView, g: int, p: Seq<char>)
    ensures
        tree_lookup(tree_add(t, r), g, p) == if g == r.group_id && p == r.property {
            Some(r.pattern)
        } else {
            tree_lookup(t, g, p)
        },
{
    lemma_group_index(t, r.group_id);
    lemma_group_index(t, g);
    match group_index(t, r.group_id) {
        Some(i) => {
            let e2 = MatchEntryView { group_id: t[i].group_id, rules: group_add(t[i].rules, r) };
            let t2 = t.update(i, e2);
            assert(forall|k: int| 0 <= k < t2.len() ==> (#[trigger] t[k]).group_id == t2[k].group_id);
            lemma_group_index_ids(t, t2, g);
            match group_index(t, g) {
                Some(j) => {
                    if j == i {
                        lemma_group_add_lookup(t[i].rules, r, p);
                    } else {
                        assert(t2[j] == t[j]);
                    }
                },
                None => {},
            }
        },
        None => {
            let e2 = MatchEntryView { group_id: r.group_id, rules: seq![r] };
            let t2 = t.push(e2);
            lemma_group_index_push(t, e2, g);
            if g == r.group_id {
                assert(t2[t.len() as int] == e2);
                if p == r.property {
                    assert(rule_index(seq![r], p) == Some(0int));
                } else {
                    assert(seq![r].drop_first() =~= Seq::<MatchRuleView>::empty());
                    assert(rule_index(Seq::<MatchRuleView>::empty(), p) is None);
                }
            } else {
                match group_index(t, g) {
                    Some(j) => {
                        assert(t2[j] == t[j]);
                    },
                    None => {},
                }
            }
        },
    }
}

/// Last write wins: the tree built from a rule list holds, for every group
/// id and property name, exactly the pattern of the last rule in the list
/// with that pair, and none when no rule has the pair.
pub proof fn lemma_last_write_wins(rules: Seq<MatchRuleView>, g: int, p: Seq<char>)
    ensures
        tree_lookup(build_tree(rules), g, p) == rules_lookup(rules, g, p),
    decreases rules.len(),
{
    if rules.len() > 0 {
        lemma_last_write_wins(rules.drop_last(), g, p);
        lemma_tree_add_lookup(build_tree(rules.drop_last()), rules.last(), g, p);
    }
}

// ---------------------------------------------------------------------------
// Laws of the exclusion windows.
// ---------------------------------------------------------------------------

/// A remove rule carrying only a group id covers every date.
pub proof fn lemma_unrestricted_window(r: RemoveMatchRule, d: Date)
    requires
        !r.single_day,
        r.start_date is None,
        r.end_date is None,
    ensures
        spec_rule_covers(r, d),
{
}

/// A single-day remove rule covers exactly its one date.
pub proof fn lemma_single_day_window(r: RemoveMatchRule, d: Date)
    requires
        r.single_day,
        r.start_date is Some,
    ensures
        spec_rule_covers(r, d) <==> d == r.start_date->Some_0,
{
}

/// A range remove rule covers exactly the dates between its bounds,
/// inclusive, a missing bound leaving that side open.
pub proof fn lemma_range_window(r: RemoveMatchRule, d: Date)
    requires
        !r.single_day,
    ensures
        spec_rule_covers(r, d) <==> ((match r.start_date {
            Some(sd) => date_le(sd, d),
            None => true,
        }) && (match r.end_date {
            Some(ed) => date_le(d, ed),
            None => true,
        })),
{
}

} // verus!
