//! `RATELIMIT` clauses as they are written in statements.
use crate::catalog;
use crate::duration::Duration;
use crate::text;
use vstd::prelude::*;

verus! {

/// An action that a policy applies to.
#[derive(Clone, Copy, Debug, PartialEq, Eq, Hash, Structural)]
pub enum PermissionKind {
    Select,
    Create,
    Update,
    Delete,
}

impl PermissionKind {
    /// The name of the action.
    pub open spec fn name(self) -> Seq<char> {
        match self {
            PermissionKind::Select => "select"@,
            PermissionKind::Create => "create"@,
            PermissionKind::Update => "update"@,
            PermissionKind::Delete => "delete"@,
        }
    }

    /// The name of the action as it is written in a statement.
    pub open spec fn keyword(self) -> Seq<char> {
        match self {
            PermissionKind::Select => "SELECT"@,
            PermissionKind::Create => "CREATE"@,
            PermissionKind::Update => "UPDATE"@,
            PermissionKind::Delete => "DELETE"@,
        }
    }

    /// The name of the action.
    pub fn as_str(&self) -> (name: &'static str)
        ensures
            name@ == self.name(),
    {
        match self {
            PermissionKind::Select => "select",
            PermissionKind::Create => "create",
            PermissionKind::Update => "update",
            PermissionKind::Delete => "delete",
        }
    }

    /// The name of the action as it is written in a statement.
    pub fn as_keyword(&self) -> (name: &'static str)
        ensures
            name@ == self.keyword(),
    {
        match self {
            PermissionKind::Select => "SELECT",
            PermissionKind::Create => "CREATE",
            PermissionKind::Update => "UPDATE",
            PermissionKind::Delete => "DELETE",
        }
    }
}

/// A literal value.
#[derive(Debug, PartialEq, Eq, Hash)]
pub enum Literal {
    String(String),
}

/// An expression.
#[derive(Debug, PartialEq, Eq, Hash)]
pub enum Expr {
    Literal(Literal),
    /// An expression that can stand anywhere, as it is written.
    Inline(String),
    /// A statement, as it is written. Inside another one it stands in
    /// parentheses.
    Statement(String),
}

impl Clone for Expr {
    fn clone(&self) -> (expr: Self)
        ensures
            expr == *self,
    {
        match self {
            Expr::Literal(Literal::String(s)) => Expr::Literal(Literal::String(s.clone())),
            Expr::Inline(s) => Expr::Inline(s.clone()),
            Expr::Statement(s) => Expr::Statement(s.clone()),
        }
    }
}

/// A text with a backslash before each quote and each backslash.
pub open spec fn escaped(s: Seq<char>) -> Seq<char>
    decreases s.len(),
{
    if s.len() == 0 {
        Seq::empty()
    } else if s.last() == '\'' || s.last() == '\\' {
        escaped(s.drop_last()).push('\\').push(s.last())
    } else {
        escaped(s.drop_last()).push(s.last())
    }
}

/// A text in single quotes.
pub open spec fn quoted(s: Seq<char>) -> Seq<char> {
    "'"@ + escaped(s) + "'"@
}

impl Expr {
    /// The expression as it is written.
    pub open spec fn written(self) -> Seq<char> {
        match self {
            Expr::Literal(Literal::String(s)) => quoted(s@),
            Expr::Inline(s) => s@,
            Expr::Statement(s) => s@,
        }
    }

    /// The expression as it is written inside a statement.
    pub open spec fn covered(self) -> Seq<char> {
        match self {
            Expr::Statement(s) => "("@ + s@ + ")"@,
            _ => self.written(),
        }
    }

    /// Appends the expression as it is written.
    pub fn push_written(&self, f: &mut String)
        ensures
            final(f)@ == old(f)@ + self.written(),
    {
        match self {
            Expr::Literal(Literal::String(s)) => push_quoted(f, s.as_str()),
            Expr::Inline(s) => f.append(s.as_str()),
            Expr::Statement(s) => f.append(s.as_str()),
        }
    }

    /// Appends the expression as it is written inside a statement.
    pub fn push_covered(&self, f: &mut String)
        ensures
            final(f)@ == old(f)@ + self.covered(),
    {
        match self {
            Expr::Statement(s) => {
                f.append("(");
                f.append(s.as_str());
                f.append(")");
                assert(f@ =~= old(f)@ + self.covered());
            },
            _ => self.push_written(f),
        }
    }
}

/// Appends a text in single quotes.
fn push_quoted(f: &mut String, s: &str)
    ensures
        final(f)@ == old(f)@ + quoted(s@),
{
    f.append("'");
    let ghost start = f@;
    let len: usize = s.unicode_len();
    let mut i: usize = 0;
    while i < len
        invariant
            i <= len,
            len == s@.len(),
            f@ == start + escaped(s@.subrange(0, i as int)),
        decreases len - i,
    {
        let ghost upto = s@.subrange(0, i + 1);
        assert(upto.drop_last() =~= s@.subrange(0, i as int));
        let c = s.get_char(i);
        if c == '\'' || c == '\\' {
            proof {
                reveal_strlit("\\");
            }
            f.append("\\");
        }
        f.append(s.substring_char(i, i + 1));
        assert(f@ =~= start + escaped(upto));
        i = i + 1;
    }
    assert(s@.subrange(0, i as int) =~= s@);
    f.append("'");
    assert(f@ =~= old(f)@ + quoted(s@));
}

/// A rate limit of a table or a field, as it is written in a statement.
#[derive(Debug, PartialEq, Eq)]
pub struct RateLimit {
    pub actions: Vec<PermissionKind>,
    pub condition: Option<Expr>,
    pub bucket: Expr,
    pub limit: u64,
    pub period: Duration,
    pub burst: Option<u64>,
    pub scan: Option<u64>,
    pub scan_period: Option<Duration>,
    pub result: Option<u64>,
}

/// A copy of some actions.
pub(crate) fn copy_actions(actions: &Vec<PermissionKind>) -> (copy: Vec<PermissionKind>)
    ensures
        copy@ == actions@,
{
    let mut copy: Vec<PermissionKind> = Vec::new();
    let mut i: usize = 0;
    while i < actions.len()
        invariant
            i <= actions@.len(),
            copy@ == actions@.subrange(0, i as int),
        decreases actions@.len() - i,
    {
        copy.push(actions[i]);
        assert(copy@ =~= actions@.subrange(0, i + 1));
        i = i + 1;
    }
    assert(copy@ =~= actions@);
    copy
}

impl Clone for RateLimit {
    fn clone(&self) -> (r: Self)
        ensures
            r.actions@ == self.actions@,
            r.condition == self.condition,
            r.bucket == self.bucket,
            r.limit == self.limit,
            r.period == self.period,
            r.burst == self.burst,
            r.scan == self.scan,
            r.scan_period == self.scan_period,
            r.result == self.result,
    {
        let actions = copy_actions(&self.actions);
        let condition = match &self.condition {
            Some(condition) => Some(condition.clone()),
            None => None,
        };
        RateLimit {
            actions,
            condition,
            bucket: self.bucket.clone(),
            limit: self.limit,
            period: self.period,
            burst: self.burst,
            scan: self.scan,
            scan_period: self.scan_period,
            result: self.result,
        }
    }
}

/// Actions, with commas between them.
pub open spec fn action_list(actions: Seq<PermissionKind>) -> Seq<char>
    decreases actions.len(),
{
    if actions.len() == 0 {
        Seq::empty()
    } else if actions.len() == 1 {
        actions[0].keyword()
    } else {
        action_list(actions.drop_last()) + ", "@ + actions.last().keyword()
    }
}

/// A number of rows, and the span of time that it is for.
pub open spec fn quota(word: Seq<char>, n: u64, period: Duration) -> Seq<char> {
    word + text::decimal(n as nat) + " PER "@ + text::span(period)
}

/// A word and a number, where there is one.
pub open spec fn option(word: Seq<char>, n: Option<u64>) -> Seq<char> {
    match n {
        Some(n) => word + text::decimal(n as nat),
        None => Seq::empty(),
    }
}

impl RateLimit {
    /// The span of time that the scan quota is for: its own, or else that of
    /// the limit.
    pub open spec fn scan_span(self) -> Duration {
        match self.scan_period {
            Some(period) => period,
            None => self.period,
        }
    }

    /// The scan quota, where there is one.
    pub open spec fn scan_quota(self, word: Seq<char>) -> Seq<char> {
        match self.scan {
            Some(scan) => quota(word, scan, self.scan_span()),
            None => Seq::empty(),
        }
    }

    /// The condition, where there is one.
    pub open spec fn guard(self) -> Seq<char> {
        match self.condition {
            Some(condition) => " WHERE "@ + condition.covered(),
            None => Seq::empty(),
        }
    }

    /// The clause: the actions, the condition, the key, the limit with its
    /// burst, and the quotas. Without actions it is a bare scan quota.
    pub open spec fn clause(self) -> Seq<char> {
        if self.actions@.len() == 0 {
            "FOR "@ + self.scan_quota("SCAN "@)
        } else {
            "FOR "@ + action_list(self.actions@) + self.guard() + " BY "@ + self.bucket.covered()
                + quota(" LIMIT "@, self.limit, self.period) + option(" MAX "@, self.burst)
                + self.scan_quota(" SCAN "@) + option(" RESULT "@, self.result)
        }
    }

    /// Appends the scan quota.
    fn push_scan(&self, f: &mut String, word: &str)
        ensures
            final(f)@ == old(f)@ + self.scan_quota(word@),
    {
        if let Some(scan) = self.scan {
            let period = match &self.scan_period {
                Some(period) => period,
                None => &self.period,
            };
            push_quota(f, word, scan, period);
        }
        assert(f@ =~= old(f)@ + self.scan_quota(word@));
    }

    /// Appends the clause.
    pub fn fmt_sql_clause(&self, f: &mut String)
        ensures
            final(f)@ == old(f)@ + self.clause(),
    {
        f.append("FOR ");
        if self.actions.len() == 0 {
            self.push_scan(f, "SCAN ");
            assert(f@ =~= old(f)@ + self.clause());
            return;
        }
        push_actions(f, &self.actions);
        if let Some(condition) = &self.condition {
            f.append(" WHERE ");
            condition.push_covered(f);
        }
        assert(f@ =~= old(f)@ + ("FOR "@ + action_list(self.actions@) + self.guard()));
        f.append(" BY ");
        self.bucket.push_covered(f);
        push_quota(f, " LIMIT ", self.limit, &self.period);
        push_option(f, " MAX ", self.burst);
        self.push_scan(f, " SCAN ");
        push_option(f, " RESULT ", self.result);
        assert(f@ =~= old(f)@ + self.clause());
    }

    /// Appends the rate limit.
    pub fn fmt_sql(&self, f: &mut String)
        ensures
            final(f)@ == old(f)@ + ("RATELIMIT "@ + self.clause()),
    {
        f.append("RATELIMIT ");
        self.fmt_sql_clause(f);
        assert(f@ =~= old(f)@ + ("RATELIMIT "@ + self.clause()));
    }

    /// The rate limit as it is written.
    pub fn to_sql(&self) -> (out: String)
        ensures
            out@ == "RATELIMIT "@ + self.clause(),
    {
        let mut out = String::new();
        self.fmt_sql(&mut out);
        assert(out@ =~= "RATELIMIT "@ + self.clause());
        out
    }
}

/// Appends actions, with commas between them.
fn push_actions(f: &mut String, actions: &Vec<PermissionKind>)
    ensures
        final(f)@ == old(f)@ + action_list(actions@),
{
    let mut i: usize = 0;
    while i < actions.len()
        invariant
            i <= actions@.len(),
            f@ == old(f)@ + action_list(actions@.subrange(0, i as int)),
        decreases actions@.len() - i,
    {
        let ghost upto = actions@.subrange(0, i + 1);
        assert(upto.drop_last() =~= actions@.subrange(0, i as int));
        if i > 0 {
            f.append(", ");
        }
        f.append(actions[i].as_keyword());
        assert(f@ =~= old(f)@ + action_list(upto));
        i = i + 1;
    }
    assert(actions@.subrange(0, i as int) =~= actions@);
}

/// Appends a number and the span of time that it is for.
fn push_quota(f: &mut String, word: &str, n: u64, period: &Duration)
    ensures
        final(f)@ == old(f)@ + quota(word@, n, *period),
{
    f.append(word);
    text::push_decimal(f, n);
    f.append(" PER ");
    text::push_span(f, period);
    assert(f@ =~= old(f)@ + quota(word@, n, *period));
}

/// Appends a word and a number, where there is one.
fn push_option(f: &mut String, word: &str, n: Option<u64>)
    ensures
        final(f)@ == old(f)@ + option(word@, n),
{
    if let Some(n) = n {
        f.append(word);
        text::push_decimal(f, n);
    }
    assert(f@ =~= old(f)@ + option(word@, n));
}

/// Clauses, with commas between them.
pub open spec fn clauses(ratelimits: Seq<RateLimit>) -> Seq<char>
    decreases ratelimits.len(),
{
    if ratelimits.len() == 0 {
        Seq::empty()
    } else if ratelimits.len() == 1 {
        ratelimits[0].clause()
    } else {
        clauses(ratelimits.drop_last()) + ", "@ + ratelimits.last().clause()
    }
}

/// The rate limits of one table or field, or nothing where there is none.
pub open spec fn block(ratelimits: Seq<RateLimit>) -> Seq<char> {
    if ratelimits.len() == 0 {
        Seq::empty()
    } else {
        "RATELIMIT "@ + clauses(ratelimits)
    }
}

/// Appends the rate limits of one table or field.
pub fn fmt_ratelimits_block(f: &mut String, ratelimits: &[RateLimit])
    ensures
        final(f)@ == old(f)@ + block(ratelimits@),
{
    if ratelimits.len() == 0 {
        assert(f@ =~= old(f)@ + block(ratelimits@));
        return;
    }
    f.append("RATELIMIT ");
    let ghost start = f@;
    let mut i: usize = 0;
    while i < ratelimits.len()
        invariant
            i <= ratelimits@.len(),
            f@ == start + clauses(ratelimits@.subrange(0, i as int)),
        decreases ratelimits@.len() - i,
    {
        let ghost upto = ratelimits@.subrange(0, i + 1);
        assert(upto.drop_last() =~= ratelimits@.subrange(0, i as int));
        if i > 0 {
            f.append(", ");
        }
        ratelimits[i].fmt_sql_clause(f);
        assert(f@ =~= start + clauses(upto));
        i = i + 1;
    }
    assert(ratelimits@.subrange(0, i as int) =~= ratelimits@);
    assert(f@ =~= old(f)@ + block(ratelimits@));
}

/// Without a span of its own the scan quota is written with that of the limit.
pub proof fn lemma_scan_period_falls_back(r: RateLimit)
    requires
        r.scan_period is None,
    ensures
        r.clause() == (RateLimit { scan_period: Some(r.period), ..r }).clause(),
{
}

/// A block of one rate limit is that rate limit.
pub proof fn lemma_block_of_one(r: RateLimit)
    ensures
        block(seq![r]) == "RATELIMIT "@ + r.clause(),
{
}

/// The definition that a stored rate limit is written as.
pub open spec fn of_catalog(v: catalog::RateLimit) -> RateLimit {
    RateLimit {
        actions: v.actions,
        condition: v.condition,
        bucket: v.bucket,
        limit: v.limit,
        period: v.period,
        burst: v.burst,
        scan: v.scan,
        scan_period: v.scan_period,
        result: v.result,
    }
}

impl From<catalog::RateLimit> for RateLimit {
    fn from(v: catalog::RateLimit) -> (r: Self) {
        RateLimit {
            actions: v.actions,
            condition: v.condition,
            bucket: v.bucket,
            limit: v.limit,
            period: v.period,
            burst: v.burst,
            scan: v.scan,
            scan_period: v.scan_period,
            result: v.result,
        }
    }
}

impl vstd::std_specs::convert::FromSpecImpl<catalog::RateLimit> for RateLimit {
    open spec fn obeys_from_spec() -> bool {
        true
    }

    open spec fn from_spec(v: catalog::RateLimit) -> Self {
        of_catalog(v)
    }
}

} // verus!
