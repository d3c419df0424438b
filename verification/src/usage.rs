//! The resources that a budget counts.
use vstd::prelude::*;

verus! {

/// A resource dimension that can be charged to a query or semantic action
/// budget.
#[derive(Clone, Copy, Debug, PartialEq, Eq, Hash, Structural)]
pub enum ResourceKind {
    WorkUnit,
    KvRead,
    KvWrite,
    ScanKey,
    RowRead,
    RowWrite,
    ResultRow,
    ResultByte,
    IntermediateByte,
    FunctionCall,
    ScriptCall,
    ModuleCall,
    ModuleHostSqlCall,
    ModuleHostFunctionCall,
    ModuleHostKvRead,
    ModuleHostKvWrite,
    HttpCall,
    GraphHop,
}

/// How many kinds of resources there are.
pub const RESOURCE_COUNT: usize = 18;

/// The place of a kind in the order of all kinds.
pub open spec fn place(kind: ResourceKind) -> int {
    match kind {
        ResourceKind::WorkUnit => 0,
        ResourceKind::KvRead => 1,
        ResourceKind::KvWrite => 2,
        ResourceKind::ScanKey => 3,
        ResourceKind::RowRead => 4,
        ResourceKind::RowWrite => 5,
        ResourceKind::ResultRow => 6,
        ResourceKind::ResultByte => 7,
        ResourceKind::IntermediateByte => 8,
        ResourceKind::FunctionCall => 9,
        ResourceKind::ScriptCall => 10,
        ResourceKind::ModuleCall => 11,
        ResourceKind::ModuleHostSqlCall => 12,
        ResourceKind::ModuleHostFunctionCall => 13,
        ResourceKind::ModuleHostKvRead => 14,
        ResourceKind::ModuleHostKvWrite => 15,
        ResourceKind::HttpCall => 16,
        ResourceKind::GraphHop => 17,
    }
}

/// What a kind is called in messages.
pub open spec fn name(kind: ResourceKind) -> Seq<char> {
    match kind {
        ResourceKind::WorkUnit => "work units"@,
        ResourceKind::KvRead => "KV reads"@,
        ResourceKind::KvWrite => "KV writes"@,
        ResourceKind::ScanKey => "scan keys"@,
        ResourceKind::RowRead => "rows read"@,
        ResourceKind::RowWrite => "rows written"@,
        ResourceKind::ResultRow => "result rows"@,
        ResourceKind::ResultByte => "result bytes"@,
        ResourceKind::IntermediateByte => "intermediate bytes"@,
        ResourceKind::FunctionCall => "function calls"@,
        ResourceKind::ScriptCall => "script calls"@,
        ResourceKind::ModuleCall => "module calls"@,
        ResourceKind::ModuleHostSqlCall => "module host SQL calls"@,
        ResourceKind::ModuleHostFunctionCall => "module host function calls"@,
        ResourceKind::ModuleHostKvRead => "module host KV reads"@,
        ResourceKind::ModuleHostKvWrite => "module host KV writes"@,
        ResourceKind::HttpCall => "HTTP calls"@,
        ResourceKind::GraphHop => "graph hops"@,
    }
}

impl ResourceKind {
    /// The place of the kind in the order of all kinds.
    pub fn index(self) -> (i: usize)
        ensures
            i == place(self),
            i < RESOURCE_COUNT,
    {
        match self {
            ResourceKind::WorkUnit => 0,
            ResourceKind::KvRead => 1,
            ResourceKind::KvWrite => 2,
            ResourceKind::ScanKey => 3,
            ResourceKind::RowRead => 4,
            ResourceKind::RowWrite => 5,
            ResourceKind::ResultRow => 6,
            ResourceKind::ResultByte => 7,
            ResourceKind::IntermediateByte => 8,
            ResourceKind::FunctionCall => 9,
            ResourceKind::ScriptCall => 10,
            ResourceKind::ModuleCall => 11,
            ResourceKind::ModuleHostSqlCall => 12,
            ResourceKind::ModuleHostFunctionCall => 13,
            ResourceKind::ModuleHostKvRead => 14,
            ResourceKind::ModuleHostKvWrite => 15,
            ResourceKind::HttpCall => 16,
            ResourceKind::GraphHop => 17,
        }
    }

    /// All kinds, in their order.
    pub fn all() -> (kinds: [ResourceKind; RESOURCE_COUNT])
        ensures
            forall|i: int| 0 <= i < RESOURCE_COUNT ==> place(#[trigger] kinds@[i]) == i,
    {
        [
            ResourceKind::WorkUnit,
            ResourceKind::KvRead,
            ResourceKind::KvWrite,
            ResourceKind::ScanKey,
            ResourceKind::RowRead,
            ResourceKind::RowWrite,
            ResourceKind::ResultRow,
            ResourceKind::ResultByte,
            ResourceKind::IntermediateByte,
            ResourceKind::FunctionCall,
            ResourceKind::ScriptCall,
            ResourceKind::ModuleCall,
            ResourceKind::ModuleHostSqlCall,
            ResourceKind::ModuleHostFunctionCall,
            ResourceKind::ModuleHostKvRead,
            ResourceKind::ModuleHostKvWrite,
            ResourceKind::HttpCall,
            ResourceKind::GraphHop,
        ]
    }

    /// What the kind is called in messages.
    pub fn label(self) -> (text: &'static str)
        ensures
            text@ == name(self),
    {
        match self {
            ResourceKind::WorkUnit => "work units",
            ResourceKind::KvRead => "KV reads",
            ResourceKind::KvWrite => "KV writes",
            ResourceKind::ScanKey => "scan keys",
            ResourceKind::RowRead => "rows read",
            ResourceKind::RowWrite => "rows written",
            ResourceKind::ResultRow => "result rows",
            ResourceKind::ResultByte => "result bytes",
            ResourceKind::IntermediateByte => "intermediate bytes",
            ResourceKind::FunctionCall => "function calls",
            ResourceKind::ScriptCall => "script calls",
            ResourceKind::ModuleCall => "module calls",
            ResourceKind::ModuleHostSqlCall => "module host SQL calls",
            ResourceKind::ModuleHostFunctionCall => "module host function calls",
            ResourceKind::ModuleHostKvRead => "module host KV reads",
            ResourceKind::ModuleHostKvWrite => "module host KV writes",
            ResourceKind::HttpCall => "HTTP calls",
            ResourceKind::GraphHop => "graph hops",
        }
    }
}

/// Different kinds have different places.
pub proof fn lemma_place_injective(a: ResourceKind, b: ResourceKind)
    requires
        place(a) == place(b),
    ensures
        a == b,
{
}

/// Immutable usage snapshot of a budget.
#[derive(Clone, Copy, Debug, PartialEq, Eq)]
pub struct ResourceUsageSnapshot {
    values: [u64; RESOURCE_COUNT],
}

impl View for ResourceUsageSnapshot {
    type V = Seq<u64>;

    closed spec fn view(&self) -> Seq<u64> {
        self.values@
    }
}

impl ResourceUsageSnapshot {
    /// A snapshot of the given values, in the order of the kinds.
    pub fn new(values: [u64; RESOURCE_COUNT]) -> (snapshot: Self)
        ensures
            snapshot@ == values@,
    {
        ResourceUsageSnapshot { values }
    }

    /// How much of a kind was used.
    pub fn get(&self, kind: ResourceKind) -> (used: u64)
        ensures
            used == self@[place(kind)],
    {
        self.values[kind.index()]
    }
}

/// What each kind is called.
pub proof fn lemma_names()
    ensures
        name(ResourceKind::WorkUnit) == "work units"@,
        name(ResourceKind::KvRead) == "KV reads"@,
        name(ResourceKind::KvWrite) == "KV writes"@,
        name(ResourceKind::ScanKey) == "scan keys"@,
        name(ResourceKind::RowRead) == "rows read"@,
        name(ResourceKind::RowWrite) == "rows written"@,
        name(ResourceKind::ResultRow) == "result rows"@,
        name(ResourceKind::ResultByte) == "result bytes"@,
        name(ResourceKind::IntermediateByte) == "intermediate bytes"@,
        name(ResourceKind::FunctionCall) == "function calls"@,
        name(ResourceKind::ScriptCall) == "script calls"@,
        name(ResourceKind::ModuleCall) == "module calls"@,
        name(ResourceKind::ModuleHostSqlCall) == "module host SQL calls"@,
        name(ResourceKind::ModuleHostFunctionCall) == "module host function calls"@,
        name(ResourceKind::ModuleHostKvRead) == "module host KV reads"@,
        name(ResourceKind::ModuleHostKvWrite) == "module host KV writes"@,
        name(ResourceKind::HttpCall) == "HTTP calls"@,
        name(ResourceKind::GraphHop) == "graph hops"@,
{
}

/// No two kinds are called the same.
pub proof fn lemma_names_differ(a: ResourceKind, b: ResourceKind)
    ensures
        name(a) == name(b) ==> a == b,
        name(a).len() > 0,
{
    reveal_strlit("work units");
    reveal_strlit("KV reads");
    reveal_strlit("KV writes");
    reveal_strlit("scan keys");
    reveal_strlit("rows read");
    reveal_strlit("rows written");
    reveal_strlit("result rows");
    reveal_strlit("result bytes");
    reveal_strlit("intermediate bytes");
    reveal_strlit("function calls");
    reveal_strlit("script calls");
    reveal_strlit("module calls");
    reveal_strlit("module host SQL calls");
    reveal_strlit("module host function calls");
    reveal_strlit("module host KV reads");
    reveal_strlit("module host KV writes");
    reveal_strlit("HTTP calls");
    reveal_strlit("graph hops");
    let x = name(a);
    let y = name(b);
    if x == y {
        assert(x[0] == y[0] && x[1] == y[1]);
        if x.len() == 21 {
            assert(x[12] == y[12]);
        }
    }
}

/// The places of the kinds are the numbers below their count, in this order.
pub proof fn lemma_places()
    ensures
        place(ResourceKind::WorkUnit) == 0,
        place(ResourceKind::KvRead) == 1,
        place(ResourceKind::KvWrite) == 2,
        place(ResourceKind::ScanKey) == 3,
        place(ResourceKind::RowRead) == 4,
        place(ResourceKind::RowWrite) == 5,
        place(ResourceKind::ResultRow) == 6,
        place(ResourceKind::ResultByte) == 7,
        place(ResourceKind::IntermediateByte) == 8,
        place(ResourceKind::FunctionCall) == 9,
        place(ResourceKind::ScriptCall) == 10,
        place(ResourceKind::ModuleCall) == 11,
        place(ResourceKind::ModuleHostSqlCall) == 12,
        place(ResourceKind::ModuleHostFunctionCall) == 13,
        place(ResourceKind::ModuleHostKvRead) == 14,
        place(ResourceKind::ModuleHostKvWrite) == 15,
        place(ResourceKind::HttpCall) == 16,
        place(ResourceKind::GraphHop) == 17,
{
}

/// Each number below the count of the kinds is the place of one kind, and no
/// other number is.
pub proof fn lemma_places_are_all_taken(a: ResourceKind, b: ResourceKind, i: int)
    requires
        0 <= i < RESOURCE_COUNT,
    ensures
        0 <= place(a) < RESOURCE_COUNT,
        place(a) == place(b) <==> a == b,
        exists|kind: ResourceKind| #[trigger] place(kind) == i,
{
    lemma_places();
}

} // verus!
