//! The robots policy: reading a robots.txt for one user agent, and deciding
//! from its rules whether a path may be fetched.
//!
//! A robots.txt is read line by line. A line is `field: value`, with
//! anything from a `#` on ignored. Lines naming user agents open a group;
//! the `Allow`, `Disallow` and `Crawl-delay` lines after them belong to each
//! agent of the group. The groups that name the crawler's own product token
//! count; where none does, the groups for `*` count. Of the rules whose
//! pattern is a prefix of the requested path the longest decides, `Allow`
//! winning a tie; where no rule matches, the path may be fetched.

use crate::budget::STAR;
use crate::text::{
    ascii, find, index_of, lemma_index_of, literal, lower_range, lower_seq, copy_range, has_prefix,
    same, starts_with, trim, trim_range, COLON, DIGIT_NINE, DIGIT_ZERO, HASH, LINE_FEED, SLASH,
};
use crate::url::{all_digits, decimal_value, is_digit};
use vstd::prelude::*;
use vstd::slice::slice_subrange;

verus! {

/// The longest crawl delay that is taken at its word, in seconds.
pub const MAX_DELAY_SECONDS: u64 = 86400;

/// One `Allow` or `Disallow` line: a path prefix, and whether it lets paths under it be fetched.
pub struct Rule {
    pub allow: bool,
    pub pattern: Vec<u8>,
}

/// What a rule is.
pub struct RuleView {
    pub allow: bool,
    pub pattern: Seq<u8>,
}

impl View for Rule {
    type V = RuleView;

    open spec fn view(&self) -> RuleView {
        RuleView { allow: self.allow, pattern: self.pattern@ }
    }
}

/// The rules of one origin for one crawler.
pub struct RobotsRules {
    rules: Vec<Rule>,
    delay: Option<u64>,
}

/// What the rules of one origin are.
pub struct RulesView {
    pub rules: Seq<RuleView>,
    /// The advertised crawl delay in milliseconds.
    pub delay: Option<u64>,
}

impl View for RobotsRules {
    type V = RulesView;

    closed spec fn view(&self) -> RulesView {
        RulesView { rules: self.rules@.map_values(|r: Rule| r@), delay: self.delay }
    }
}

/// What one line of a robots.txt says.
pub enum DirectiveView {
    /// A user agent, in lower case.
    UserAgent(Seq<u8>),
    Rule(RuleView),
    /// A crawl delay in milliseconds.
    Delay(u64),
    /// Anything else: such a line changes nothing.
    Other,
}

enum Directive {
    UserAgent(Vec<u8>),
    Rule(Rule),
    Delay(u64),
    Other,
}

impl View for Directive {
    type V = DirectiveView;

    closed spec fn view(&self) -> DirectiveView {
        match self {
            Directive::UserAgent(a) => DirectiveView::UserAgent(a@),
            Directive::Rule(r) => DirectiveView::Rule(r@),
            Directive::Delay(d) => DirectiveView::Delay(*d),
            Directive::Other => DirectiveView::Other,
        }
    }
}

/// What has been read of a robots.txt up to some line.
pub struct ScanView {
    /// The last line that counted named a user agent.
    pub in_header: bool,
    /// The group being read names the crawler.
    pub named_group: bool,
    /// The group being read names `*`.
    pub wild_group: bool,
    /// Some group so far named the crawler.
    pub saw_named: bool,
    pub named: RulesView,
    pub wild: RulesView,
}

struct Scan {
    in_header: bool,
    named_group: bool,
    wild_group: bool,
    saw_named: bool,
    named: RobotsRules,
    wild: RobotsRules,
}

impl View for Scan {
    type V = ScanView;

    closed spec fn view(&self) -> ScanView {
        ScanView {
            in_header: self.in_header,
            named_group: self.named_group,
            wild_group: self.wild_group,
            saw_named: self.saw_named,
            named: self.named@,
            wild: self.wild@,
        }
    }
}

/// The name a crawler goes by in a robots.txt: its user agent up to the
/// first `/`, in lower case.
pub open spec fn product_token(user_agent: Seq<u8>) -> Seq<u8> {
    lower_seq(user_agent.subrange(0, index_of(user_agent, SLASH)))
}

/// The least of `n` and the longest delay taken at its word.
pub open spec fn capped(n: nat) -> u64 {
    if n > MAX_DELAY_SECONDS {
        MAX_DELAY_SECONDS
    } else {
        n as u64
    }
}

/// The seconds that a crawl delay names: decimal digits, capped at a day.
pub open spec fn delay_seconds(value: Seq<u8>) -> Option<u64> {
    if value.len() > 0 && all_digits(value) {
        Some(capped(decimal_value(value)))
    } else {
        None
    }
}

/// What the line `line` says.
pub open spec fn directive_of(line: Seq<u8>) -> DirectiveView {
    let content = line.subrange(0, index_of(line, HASH));
    let c = index_of(content, COLON);
    if c >= content.len() {
        DirectiveView::Other
    } else {
        let field = lower_seq(trim(content.subrange(0, c)));
        let value = trim(content.subrange(c + 1, content.len() as int));
        if field == ascii("user-agent"@) {
            DirectiveView::UserAgent(lower_seq(value))
        } else if field == ascii("allow"@) {
            DirectiveView::Rule(RuleView { allow: true, pattern: value })
        } else if field == ascii("disallow"@) {
            DirectiveView::Rule(RuleView { allow: false, pattern: value })
        } else if field == ascii("crawl-delay"@) {
            match delay_seconds(value) {
                Some(s) => DirectiveView::Delay((s * 1000) as u64),
                None => DirectiveView::Other,
            }
        } else {
            DirectiveView::Other
        }
    }
}

impl RulesView {
    /// No rules and no delay.
    pub open spec fn none() -> RulesView {
        RulesView { rules: Seq::empty(), delay: None }
    }

    /// The rules with one more rule at their end.
    pub open spec fn with_rule(self, rule: RuleView) -> RulesView {
        RulesView { rules: self.rules.push(rule), delay: self.delay }
    }

    /// The first delay that a group names stands.
    pub open spec fn with_delay(self, delay: u64) -> RulesView {
        RulesView {
            rules: self.rules,
            delay: if self.delay is None {
                Some(delay)
            } else {
                self.delay
            },
        }
    }

    /// Length of the longest pattern among the first `n` rules of the
    /// given kind that is a prefix of `target`; `-1` where there is none.
    /// An empty pattern matches nothing.
    pub open spec fn longest_match(self, target: Seq<u8>, allow: bool, n: int) -> int
        decreases n,
    {
        if n <= 0 {
            -1
        } else {
            let before = self.longest_match(target, allow, n - 1);
            let rule = self.rules[n - 1];
            if rule.allow == allow && rule.pattern.len() > 0 && starts_with(target, rule.pattern)
                && rule.pattern.len() > before {
                rule.pattern.len() as int
            } else {
                before
            }
        }
    }

    /// Whether `target`, a path with its query, may be fetched.
    pub open spec fn permits(self, target: Seq<u8>) -> bool {
        self.longest_match(target, true, self.rules.len() as int) >= self.longest_match(
            target,
            false,
            self.rules.len() as int,
        )
    }

    /// The time to leave between two requests, in milliseconds.
    pub open spec fn crawl_delay(self) -> u64 {
        match self.delay {
            Some(d) => d,
            None => 0,
        }
    }
}

impl ScanView {
    /// Before the first line: no group is open, and nothing is collected.
    pub open spec fn start() -> ScanView {
        ScanView {
            in_header: false,
            named_group: false,
            wild_group: false,
            saw_named: false,
            named: RulesView::none(),
            wild: RulesView::none(),
        }
    }

    /// The state after one more line.
    pub open spec fn step(self, directive: DirectiveView, agent: Seq<u8>) -> ScanView {
        match directive {
            DirectiveView::UserAgent(name) => ScanView {
                in_header: true,
                named_group: (self.in_header && self.named_group) || name == agent,
                wild_group: (self.in_header && self.wild_group) || name == seq![STAR],
                saw_named: self.saw_named || name == agent,
                named: self.named,
                wild: self.wild,
            },
            DirectiveView::Rule(rule) => ScanView {
                in_header: false,
                named_group: self.named_group,
                wild_group: self.wild_group,
                saw_named: self.saw_named,
                named: if self.named_group {
                    self.named.with_rule(rule)
                } else {
                    self.named
                },
                wild: if self.wild_group {
                    self.wild.with_rule(rule)
                } else {
                    self.wild
                },
            },
            DirectiveView::Delay(delay) => ScanView {
                in_header: false,
                named_group: self.named_group,
                wild_group: self.wild_group,
                saw_named: self.saw_named,
                named: if self.named_group {
                    self.named.with_delay(delay)
                } else {
                    self.named
                },
                wild: if self.wild_group {
                    self.wild.with_delay(delay)
                } else {
                    self.wild
                },
            },
            DirectiveView::Other => self,
        }
    }

    /// The rules that count: the crawler's own where a group named it, else those for `*`.
    pub open spec fn result(self) -> RulesView {
        if self.saw_named {
            self.named
        } else {
            self.wild
        }
    }
}

/// The state after the lines of `body`, read one after the other from `state`.
pub open spec fn scan(body: Seq<u8>, agent: Seq<u8>, state: ScanView) -> ScanView
    decreases body.len(),
{
    if body.len() == 0 {
        state
    } else {
        proof {
            lemma_index_of(body, LINE_FEED);
        }
        let n = index_of(body, LINE_FEED);
        let next = state.step(directive_of(body.subrange(0, n)), agent);
        if n >= body.len() {
            next
        } else {
            scan(body.subrange(n + 1, body.len() as int), agent, next)
        }
    }
}

/// The rules that the robots.txt `body` holds for the crawler named `agent`.
pub open spec fn parse_robots(body: Seq<u8>, agent: Seq<u8>) -> RulesView {
    scan(body, agent, ScanView::start()).result()
}

/// With no rules every path may be fetched, at once.
pub proof fn lemma_no_rules_permit_all(target: Seq<u8>)
    ensures
        RulesView::none().permits(target),
        RulesView::none().crawl_delay() == 0,
{
}

/// The longest match is the length of a matching rule of that kind, and no
/// matching rule of that kind is longer.
pub proof fn lemma_longest_match(rules: RulesView, target: Seq<u8>, allow: bool, n: int)
    requires
        0 <= n <= rules.rules.len(),
    ensures
        rules.longest_match(target, allow, n) >= -1,
        rules.longest_match(target, allow, n) >= 0 ==> exists|k: int|
            0 <= k < n && (#[trigger] rules.rules[k]).allow == allow && starts_with(
                target,
                rules.rules[k].pattern,
            ) && rules.rules[k].pattern.len() == rules.longest_match(target, allow, n),
        forall|k: int|
            0 <= k < n && (#[trigger] rules.rules[k]).allow == allow && rules.rules[k].pattern.len()
                > 0 && starts_with(target, rules.rules[k].pattern) ==> rules.rules[k].pattern.len()
                <= rules.longest_match(target, allow, n),
    decreases n,
{
    if n > 0 {
        lemma_longest_match(rules, target, allow, n - 1);
        let before = rules.longest_match(target, allow, n - 1);
        let now = rules.longest_match(target, allow, n);
        if now >= 0 {
            if now == before {
                let k = choose|k: int|
                    0 <= k < n - 1 && (#[trigger] rules.rules[k]).allow == allow && starts_with(
                        target,
                        rules.rules[k].pattern,
                    ) && rules.rules[k].pattern.len() == before;
                assert(rules.rules[k].pattern.len() == now);
            } else {
                assert(rules.rules[n - 1].pattern.len() == now);
            }
        }
    }
}

/// The length of the longest match found so far, `-1` for none.
spec fn reach(found: Option<usize>) -> int {
    match found {
        Some(len) => len as int,
        None => -1,
    }
}

fn longer(len: usize, found: Option<usize>) -> (r: bool)
    ensures
        r == (len > reach(found)),
{
    match found {
        Some(best) => len > best,
        None => true,
    }
}

fn read_delay(value: &[u8]) -> (r: Option<u64>)
    ensures
        r == delay_seconds(value@),
{
    if value.len() == 0 {
        return None;
    }
    let mut seconds: u64 = 0;
    let mut i: usize = 0;
    while i < value.len()
        invariant
            i <= value@.len(),
            forall|k: int| 0 <= k < i ==> is_digit(#[trigger] value@[k]),
            seconds == capped(decimal_value(value@.subrange(0, i as int))),
        decreases value@.len() - i,
    {
        let b = value[i];
        if !(b >= DIGIT_ZERO && b <= DIGIT_NINE) {
            return None;
        }
        let ghost before = value@.subrange(0, i as int);
        let ghost now = value@.subrange(0, i + 1);
        assert(now.drop_last() == before);
        assert(now.last() == b);
        seconds = seconds * 10 + (b - DIGIT_ZERO) as u64;
        if seconds > MAX_DELAY_SECONDS {
            seconds = MAX_DELAY_SECONDS;
        }
        i += 1;
    }
    assert(value@.subrange(0, value@.len() as int) == value@);
    Some(seconds)
}

fn read_directive(line: &[u8]) -> (d: Directive)
    ensures
        d@ == directive_of(line@),
{
    assert(line@.subrange(0, line@.len() as int) == line@);
    let h = find(line, 0, line.len(), HASH);
    let content = slice_subrange(line, 0, h);
    assert(content@.subrange(0, content@.len() as int) == content@);
    let c = find(content, 0, content.len(), COLON);
    if c >= content.len() {
        return Directive::Other;
    }
    let (fa, fb) = trim_range(content, 0, c);
    let field = lower_range(content, fa, fb);
    let (va, vb) = trim_range(content, c + 1, content.len());
    proof {
        reveal_strlit("user-agent");
        reveal_strlit("allow");
        reveal_strlit("disallow");
        reveal_strlit("crawl-delay");
    }
    if same(field.as_slice(), literal("user-agent")) {
        Directive::UserAgent(lower_range(content, va, vb))
    } else if same(field.as_slice(), literal("allow")) {
        Directive::Rule(Rule { allow: true, pattern: copy_range(content, va, vb) })
    } else if same(field.as_slice(), literal("disallow")) {
        Directive::Rule(Rule { allow: false, pattern: copy_range(content, va, vb) })
    } else if same(field.as_slice(), literal("crawl-delay")) {
        match read_delay(slice_subrange(content, va, vb)) {
            Some(s) => Directive::Delay(s * 1000),
            None => Directive::Other,
        }
    } else {
        Directive::Other
    }
}

impl RobotsRules {
    /// No rules: everything may be fetched, without delay.
    pub fn allow_all() -> (r: RobotsRules)
        ensures
            r@ == RulesView::none(),
    {
        let r = RobotsRules { rules: Vec::new(), delay: None };
        assert(r@.rules =~= Seq::empty());
        r
    }

    /// Reads a robots.txt for the crawler whose product token is `agent`, in lower case.
    pub fn parse(body: &[u8], agent: &[u8]) -> (r: RobotsRules)
        ensures
            r@ == parse_robots(body@, agent@),
    {
        let mut state = Scan {
            in_header: false,
            named_group: false,
            wild_group: false,
            saw_named: false,
            named: RobotsRules::allow_all(),
            wild: RobotsRules::allow_all(),
        };
        let len: usize = body.len();
        let mut i: usize = 0;
        assert(body@.subrange(0, len as int) == body@);
        while i < len
            invariant
                i <= len,
                len == body@.len(),
                scan(body@.subrange(i as int, len as int), agent@, state@) == scan(
                    body@,
                    agent@,
                    ScanView::start(),
                ),
            decreases len - i,
        {
            let ghost rest = body@.subrange(i as int, len as int);
            let n = find(body, i, len, LINE_FEED);
            let line = slice_subrange(body, i, n);
            proof {
                lemma_index_of(rest, LINE_FEED);
                assert(rest.subrange(0, n - i) == line@);
                if n < len {
                    assert(rest.subrange(n - i + 1, rest.len() as int) == body@.subrange(
                        n + 1,
                        len as int,
                    ));
                }
            }
            let directive = read_directive(line);
            state.apply(directive, agent);
            if n < len {
                i = n + 1;
            } else {
                i = len;
            }
        }
        if state.saw_named {
            state.named
        } else {
            state.wild
        }
    }

    /// Whether `target`, a path with its query, may be fetched.
    pub fn allows(&self, target: &[u8]) -> (r: bool)
        ensures
            r == self@.permits(target@),
    {
        let mut allow: Option<usize> = None;
        let mut deny: Option<usize> = None;
        let mut n: usize = 0;
        while n < self.rules.len()
            invariant
                n <= self.rules@.len(),
                reach(allow) == self@.longest_match(target@, true, n as int),
                reach(deny) == self@.longest_match(target@, false, n as int),
            decreases self.rules@.len() - n,
        {
            let rule = &self.rules[n];
            assert(rule@ == self@.rules[n as int]);
            let len: usize = rule.pattern.len();
            if len > 0 && has_prefix(target, rule.pattern.as_slice()) {
                if rule.allow {
                    if longer(len, allow) {
                        allow = Some(len);
                    }
                } else {
                    if longer(len, deny) {
                        deny = Some(len);
                    }
                }
            }
            n += 1;
        }
        match deny {
            None => true,
            Some(d) => match allow {
                None => false,
                Some(a) => a >= d,
            },
        }
    }

    /// The time to leave between two requests, in milliseconds.
    pub fn crawl_delay(&self) -> (d: u64)
        ensures
            d == self@.crawl_delay(),
    {
        match self.delay {
            Some(d) => d,
            None => 0,
        }
    }
}

impl Scan {
    fn apply(&mut self, directive: Directive, agent: &[u8])
        ensures
            final(self)@ == old(self)@.step(directive@, agent@),
    {
        match directive {
            Directive::UserAgent(name) => {
                let named = same(name.as_slice(), agent);
                let wild = name.len() == 1 && name[0] == STAR;
                proof {
                    if wild {
                        assert(name@ =~= seq![STAR]);
                    } else if name@ == seq![STAR] {
                        assert(seq![STAR].len() == 1);
                        assert(seq![STAR][0] == STAR);
                    }
                }
                self.named_group = (self.in_header && self.named_group) || named;
                self.wild_group = (self.in_header && self.wild_group) || wild;
                self.saw_named = self.saw_named || named;
                self.in_header = true;
            },
            Directive::Rule(rule) => {
                self.in_header = false;
                if self.named_group {
                    let ghost before = self.named@;
                    self.named.rules.push(Rule {
                        allow: rule.allow,
                        pattern: copy_range(rule.pattern.as_slice(), 0, rule.pattern.len()),
                    });
                    proof {
                        assert(rule.pattern@.subrange(0, rule.pattern@.len() as int)
                            == rule.pattern@);
                        assert(self.named@.rules =~= before.rules.push(rule@));
                    }
                }
                if self.wild_group {
                    let ghost before = self.wild@;
                    self.wild.rules.push(rule);
                    proof {
                        assert(self.wild@.rules =~= before.rules.push(rule@));
                    }
                }
            },
            Directive::Delay(delay) => {
                self.in_header = false;
                if self.named_group && self.named.delay.is_none() {
                    self.named.delay = Some(delay);
                }
                if self.wild_group && self.wild.delay.is_none() {
                    self.wild.delay = Some(delay);
                }
            },
            Directive::Other => {},
        }
    }
}

/// The product token of a user agent.
pub fn token_of(user_agent: &[u8]) -> (t: Vec<u8>)
    ensures
        t@ == product_token(user_agent@),
{
    assert(user_agent@.subrange(0, user_agent@.len() as int) == user_agent@);
    let s = find(user_agent, 0, user_agent.len(), SLASH);
    lower_range(user_agent, 0, s)
}

} // verus!
