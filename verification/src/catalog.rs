//! Rate limits as they are stored in the schema.
use crate::duration::Duration;
use crate::sql;
use crate::sql::{Expr, PermissionKind};
use vstd::prelude::*;

verus! {

/// A rate limit of a table or a field.
#[derive(Debug, PartialEq, Eq, Hash)]
pub struct RateLimit {
    pub actions: Vec<PermissionKind>,
    pub condition: Option<Expr>,
    pub bucket: Expr,
    pub limit: u64,
    pub period: Duration,
    pub burst: Option<u64>,
    pub scan: Option<u64>,
    pub scan_period: Option<Duration>,
    pub result: Option<u64>,
}

impl Clone for RateLimit {
    fn clone(&self) -> (r: Self)
        ensures
            r.actions@ == self.actions@,
            r.condition == self.condition,
            r.bucket == self.bucket,
            r.limit == self.limit,
            r.period == self.period,
            r.burst == self.burst,
            r.scan == self.scan,
            r.scan_period == self.scan_period,
            r.result == self.result,
    {
        let actions = sql::copy_actions(&self.actions);
        let condition = match &self.condition {
            Some(condition) => Some(condition.clone()),
            None => None,
        };
        RateLimit {
            actions,
            condition,
            bucket: self.bucket.clone(),
            limit: self.limit,
            period: self.period,
            burst: self.burst,
            scan: self.scan,
            scan_period: self.scan_period,
            result: self.result,
        }
    }
}

/// A value in the description of a definition.
#[derive(Debug, PartialEq, Eq)]
pub enum Value {
    Strand(String),
    Strands(Vec<String>),
    Number(u64),
    Duration(Duration),
}

/// What a value in a description says.
pub enum Info {
    Strand(Seq<char>),
    Strands(Seq<Seq<char>>),
    Number(u64),
    Duration(Duration),
}

impl View for Value {
    type V = Info;

    open spec fn view(&self) -> Info {
        match self {
            Value::Strand(s) => Info::Strand(s@),
            Value::Strands(all) => Info::Strands(Seq::new(all@.len(), |i: int| all@[i]@)),
            Value::Number(n) => Info::Number(*n),
            Value::Duration(d) => Info::Duration(*d),
        }
    }
}

/// An entry of a description, where there is a number for it.
pub open spec fn entry(key: Seq<char>, n: Option<u64>) -> Seq<(Seq<char>, Info)> {
    match n {
        Some(n) => seq![(key, Info::Number(n))],
        None => Seq::empty(),
    }
}

/// What the entries of a description say.
pub open spec fn entries(all: Seq<(&'static str, Value)>) -> Seq<(Seq<char>, Info)> {
    Seq::new(all.len(), |i: int| (all[i].0@, all[i].1@))
}

impl RateLimit {
    /// The names of the actions.
    pub open spec fn action_names(self) -> Seq<Seq<char>> {
        Seq::new(self.actions@.len(), |i: int| self.actions@[i].name())
    }

    /// The description of the rate limit: what is set, in the order of the
    /// keys.
    pub open spec fn description(self) -> Seq<(Seq<char>, Info)> {
        seq![("actions"@, Info::Strands(self.action_names()))] + entry("burst"@, self.burst) + seq![
            ("by"@, Info::Strand(self.bucket.written())),
        ] + match self.condition {
            Some(condition) => seq![("condition"@, Info::Strand(condition.written()))],
            None => Seq::empty(),
        } + seq![
            ("limit"@, Info::Number(self.limit)),
            ("period"@, Info::Duration(self.period)),
        ] + entry("result"@, self.result) + entry("scan"@, self.scan)
    }

    /// The definition that the rate limit is written as.
    pub fn to_sql_definition(&self) -> (r: sql::RateLimit)
        ensures
            r.actions@ == self.actions@,
            r.condition == self.condition,
            r.bucket == self.bucket,
            r.limit == self.limit,
            r.period == self.period,
            r.burst == self.burst,
            r.scan == self.scan,
            r.scan_period == self.scan_period,
            r.result == self.result,
            r.clause() == sql::of_catalog(*self).clause(),
    {
        let actions = sql::copy_actions(&self.actions);
        let condition = match &self.condition {
            Some(condition) => Some(condition.clone()),
            None => None,
        };
        sql::RateLimit {
            actions,
            condition,
            bucket: self.bucket.clone(),
            limit: self.limit,
            period: self.period,
            burst: self.burst,
            scan: self.scan,
            scan_period: self.scan_period,
            result: self.result,
        }
    }

    /// Appends the rate limit as it is written.
    pub fn fmt_sql(&self, f: &mut String)
        ensures
            final(f)@ == old(f)@ + ("RATELIMIT "@ + sql::of_catalog(*self).clause()),
    {
        self.to_sql_definition().fmt_sql(f);
    }

    /// The description of the rate limit.
    pub fn structure(self) -> (out: Vec<(&'static str, Value)>)
        ensures
            entries(out@) == self.description(),
    {
        let mut names: Vec<String> = Vec::new();
        let mut i: usize = 0;
        while i < self.actions.len()
            invariant
                i <= self.actions@.len(),
                names@.len() == i,
                forall|j: int| 0 <= j < i ==> (#[trigger] names@[j])@ == self.actions@[j].name(),
            decreases self.actions@.len() - i,
        {
            names.push(self.actions[i].as_str().to_string());
            i = i + 1;
        }
        let actions = Value::Strands(names);
        assert(Seq::new(names@.len(), |j: int| names@[j]@) =~= self.action_names());
        let mut out: Vec<(&'static str, Value)> = Vec::new();
        push_value(&mut out, "actions", actions);
        push_entry(&mut out, "burst", self.burst);
        push_value(&mut out, "by", Value::Strand(written(&self.bucket)));
        if let Some(condition) = &self.condition {
            push_value(&mut out, "condition", Value::Strand(written(condition)));
        }
        push_value(&mut out, "limit", Value::Number(self.limit));
        push_value(&mut out, "period", Value::Duration(self.period));
        push_entry(&mut out, "result", self.result);
        push_entry(&mut out, "scan", self.scan);
        assert(entries(out@) =~= self.description());
        out
    }
}

/// An expression as it is written.
fn written(expr: &Expr) -> (out: String)
    ensures
        out@ == expr.written(),
{
    let mut out = String::new();
    expr.push_written(&mut out);
    assert(out@ =~= expr.written());
    out
}

/// Appends an entry.
fn push_value(out: &mut Vec<(&'static str, Value)>, key: &'static str, value: Value)
    ensures
        entries(final(out)@) == entries(old(out)@).push((key@, value@)),
{
    out.push((key, value));
    assert(entries(out@) =~= entries(old(out)@).push((key@, value@)));
}

/// Appends an entry, where there is a number for it.
fn push_entry(out: &mut Vec<(&'static str, Value)>, key: &'static str, n: Option<u64>)
    ensures
        entries(final(out)@) == entries(old(out)@) + entry(key@, n),
{
    if let Some(n) = n {
        push_value(out, key, Value::Number(n));
    }
    assert(entries(out@) =~= entries(old(out)@) + entry(key@, n));
}

/// What a written rate limit is stored as.
pub open spec fn of_sql(v: sql::RateLimit) -> RateLimit {
    RateLimit {
        actions: v.actions,
        condition: v.condition,
        bucket: v.bucket,
        limit: v.limit,
        period: v.period,
        burst: v.burst,
        scan: v.scan,
        scan_period: v.scan_period,
        result: v.result,
    }
}

impl From<sql::RateLimit> for RateLimit {
    fn from(v: sql::RateLimit) -> (r: Self) {
        RateLimit {
            actions: v.actions,
            condition: v.condition,
            bucket: v.bucket,
            limit: v.limit,
            period: v.period,
            burst: v.burst,
            scan: v.scan,
            scan_period: v.scan_period,
            result: v.result,
        }
    }
}

impl vstd::std_specs::convert::FromSpecImpl<sql::RateLimit> for RateLimit {
    open spec fn obeys_from_spec() -> bool {
        true
    }

    open spec fn from_spec(v: sql::RateLimit) -> Self {
        of_sql(v)
    }
}

/// Nothing is lost between what is written and what is stored.
pub proof fn lemma_round_trip(stored: RateLimit, written: sql::RateLimit)
    ensures
        of_sql(sql::of_catalog(stored)) == stored,
        sql::of_catalog(of_sql(written)) == written,
{
}

} // verus!
