//! What residency reads of a model: the nodes that route, gather and hash,
//! the values between them, and the planes behind those.

use vstd::prelude::*;

verus! {

/// A value of the trace, by number.
#[derive(Debug, Clone, Copy, PartialEq, Eq, Structural)]
pub struct ValueId(pub u32);

/// What a value is.
#[derive(Debug, Clone, Copy, PartialEq, Eq, Structural)]
pub enum Def {
    /// A declared parameter, by number.
    Weight(u32),
    /// A row of the recurrent cache.
    Cache(u32),
    /// Anything residency does not ask about.
    Other,
}

/// One declared plane.
#[derive(Debug)]
pub struct Param {
    pub name: String,
    pub shape: Vec<u64>,
}

/// The operations that route rows to experts, and those that read by a
/// routing vector.
#[derive(Debug, Clone, Copy, PartialEq, Eq, Structural)]
pub enum Linear {
    MoeTopkSoftmax { routes: ValueId, experts: u32, top_k: u32 },
    MoeTopkSoftmaxScaled { routes: ValueId, experts: u32, top_k: u32 },
    MoeTopkSigmoid { routes: ValueId, experts: u32, top_k: u32, hint: Option<ValueId> },
    MoeTopkSqrtSoftplus { routes: ValueId, experts: u32, top_k: u32, hint: Option<ValueId> },
    MoeHashRoute { routes: ValueId, experts: u32, top_k: u32 },
    MoeMatmulSelect { bank: ValueId, routes: ValueId },
    MoeMatmulSelectQuant { bank: ValueId, routes: ValueId },
    MoeMatmulSelectBias { bank: ValueId, bias: ValueId, routes: ValueId },
    MoeBiasSum { bias: ValueId, routes: ValueId },
    Other,
}

/// An n-gram hasher: the ids it lands, the state it hashes over, and its
/// constants.
#[derive(Debug)]
pub struct Ngram {
    pub ngram_ids: ValueId,
    pub state: ValueId,
    pub eos: i64,
    pub mults: Vec<u64>,
    pub primes: Vec<u64>,
    pub offsets: Vec<u64>,
    pub heads_per_ngram: u32,
}

#[derive(Debug)]
pub enum Attention {
    PleNgramIds(Ngram),
    PleNgramIdsChunked(Ngram),
    Other,
}

#[derive(Debug, Clone, Copy, PartialEq, Eq, Structural)]
pub enum Layout {
    /// A concatenating gather out of `table`.
    EmbedConcat { table: ValueId },
    Other,
}

#[derive(Debug)]
pub enum Operation {
    Linear(Linear),
    Attention(Attention),
    Layout(Layout),
    Other,
}

/// One node: what it does, and what that is called.
#[derive(Debug)]
pub struct Node {
    pub name: String,
    pub op: Operation,
}

#[derive(Debug)]
pub struct Trace {
    pub nodes: Vec<Node>,
    pub values: Vec<Def>,
    pub params: Vec<Param>,
}

/// The nodes one region of the compiled model encodes, in order.
#[derive(Debug)]
pub struct Region {
    pub nodes: Vec<u32>,
}

/// What a routing node says.
#[derive(Debug, Clone, Copy, PartialEq, Eq, Structural)]
pub struct Router {
    pub routes: ValueId,
    pub experts: u32,
    pub top_k: u32,
    pub hint: Option<ValueId>,
}

/// What a node that reads by a routing vector says: the vector, and the one
/// or two values it indexes by it.
#[derive(Debug, Clone, Copy, PartialEq, Eq, Structural)]
pub struct Reader {
    pub routes: ValueId,
    pub first: ValueId,
    pub second: Option<ValueId>,
}

impl Trace {
    /// Every weight is a declared parameter.
    pub open spec fn wf(&self) -> bool {
        &&& self.params@.len() <= u32::MAX
        &&& forall|i: int|
            0 <= i < self.values@.len() ==> (#[trigger] self.values@[i] matches Def::Weight(w) ==> w
                < self.params@.len())
    }

    /// The parameter behind a value, if it is a weight.
    pub open spec fn weight(&self, id: ValueId) -> Option<int> {
        if id.0 < self.values@.len() && self.values@[id.0 as int] is Weight {
            Some(self.values@[id.0 as int]->Weight_0 as int)
        } else {
            None
        }
    }

    pub open spec fn router_at(&self, i: int) -> Option<Router> {
        match self.nodes@[i].op {
            Operation::Linear(op) => op.as_router(),
            _ => None,
        }
    }

    pub open spec fn reader_at(&self, i: int) -> Option<Reader> {
        match self.nodes@[i].op {
            Operation::Linear(op) => op.as_reader(),
            _ => None,
        }
    }

    pub open spec fn ngram_at(&self, i: int) -> Option<Ngram> {
        match self.nodes@[i].op {
            Operation::Attention(Attention::PleNgramIds(ngram)) => Some(ngram),
            Operation::Attention(Attention::PleNgramIdsChunked(ngram)) => Some(ngram),
            _ => None,
        }
    }

    pub open spec fn table_at(&self, i: int) -> Option<ValueId> {
        match self.nodes@[i].op {
            Operation::Layout(Layout::EmbedConcat { table }) => Some(table),
            _ => None,
        }
    }

    /// The parameter behind a value, if it is a weight.
    pub fn weight_at(&self, id: ValueId) -> (param: Option<usize>)
        ensures
            match param {
                Some(w) => self.weight(id) == Some(w as int),
                None => self.weight(id) is None,
            },
    {
        if (id.0 as usize) < self.values.len() {
            match self.values[id.0 as usize] {
                Def::Weight(w) => Some(w as usize),
                _ => None,
            }
        } else {
            None
        }
    }
}

impl Linear {
    pub open spec fn as_router(self) -> Option<Router> {
        match self {
            Linear::MoeTopkSoftmax { routes, experts, top_k } => Some(
                Router { routes, experts, top_k, hint: None },
            ),
            Linear::MoeTopkSoftmaxScaled { routes, experts, top_k } => Some(
                Router { routes, experts, top_k, hint: None },
            ),
            Linear::MoeTopkSigmoid { routes, experts, top_k, hint } => Some(
                Router { routes, experts, top_k, hint },
            ),
            Linear::MoeTopkSqrtSoftplus { routes, experts, top_k, hint } => Some(
                Router { routes, experts, top_k, hint },
            ),
            Linear::MoeHashRoute { routes, experts, top_k } => Some(
                Router { routes, experts, top_k, hint: None },
            ),
            _ => None,
        }
    }

    pub open spec fn as_reader(self) -> Option<Reader> {
        match self {
            Linear::MoeMatmulSelect { bank, routes } => Some(
                Reader { routes, first: bank, second: None },
            ),
            Linear::MoeMatmulSelectQuant { bank, routes } => Some(
                Reader { routes, first: bank, second: None },
            ),
            Linear::MoeMatmulSelectBias { bank, bias, routes } => Some(
                Reader { routes, first: bank, second: Some(bias) },
            ),
            Linear::MoeBiasSum { bias, routes } => Some(
                Reader { routes, first: bias, second: None },
            ),
            _ => None,
        }
    }

    /// What this operation says as a router, if it is one.
    pub fn router(&self) -> (router: Option<Router>)
        ensures
            router == self.as_router(),
    {
        match *self {
            Linear::MoeTopkSoftmax { routes, experts, top_k } => Some(
                Router { routes, experts, top_k, hint: None },
            ),
            Linear::MoeTopkSoftmaxScaled { routes, experts, top_k } => Some(
                Router { routes, experts, top_k, hint: None },
            ),
            Linear::MoeTopkSigmoid { routes, experts, top_k, hint } => Some(
                Router { routes, experts, top_k, hint },
            ),
            Linear::MoeTopkSqrtSoftplus { routes, experts, top_k, hint } => Some(
                Router { routes, experts, top_k, hint },
            ),
            Linear::MoeHashRoute { routes, experts, top_k } => Some(
                Router { routes, experts, top_k, hint: None },
            ),
            _ => None,
        }
    }

    /// What this operation reads by a routing vector, if it does.
    pub fn reader(&self) -> (reader: Option<Reader>)
        ensures
            reader == self.as_reader(),
    {
        match *self {
            Linear::MoeMatmulSelect { bank, routes } => Some(
                Reader { routes, first: bank, second: None },
            ),
            Linear::MoeMatmulSelectQuant { bank, routes } => Some(
                Reader { routes, first: bank, second: None },
            ),
            Linear::MoeMatmulSelectBias { bank, bias, routes } => Some(
                Reader { routes, first: bank, second: Some(bias) },
            ),
            Linear::MoeBiasSum { bias, routes } => Some(
                Reader { routes, first: bias, second: None },
            ),
            _ => None,
        }
    }
}

impl Node {
    pub fn router(&self) -> (router: Option<Router>)
        ensures
            router == match self.op {
                Operation::Linear(op) => op.as_router(),
                _ => None,
            },
    {
        match &self.op {
            Operation::Linear(op) => op.router(),
            _ => None,
        }
    }

    pub fn reader(&self) -> (reader: Option<Reader>)
        ensures
            reader == match self.op {
                Operation::Linear(op) => op.as_reader(),
                _ => None,
            },
    {
        match &self.op {
            Operation::Linear(op) => op.reader(),
            _ => None,
        }
    }

    pub fn ngram(&self) -> (ngram: Option<&Ngram>)
        ensures
            match ngram {
                Some(n) => {
                    ||| self.op == Operation::Attention(Attention::PleNgramIds(*n))
                    ||| self.op == Operation::Attention(Attention::PleNgramIdsChunked(*n))
                },
                None => !(self.op matches Operation::Attention(op) && !(op is Other)),
            },
    {
        match &self.op {
            Operation::Attention(Attention::PleNgramIds(ngram)) => Some(ngram),
            Operation::Attention(Attention::PleNgramIdsChunked(ngram)) => Some(ngram),
            _ => None,
        }
    }

    pub fn table(&self) -> (table: Option<ValueId>)
        ensures
            table == match self.op {
                Operation::Layout(Layout::EmbedConcat { table }) => Some(table),
                _ => None,
            },
    {
        match &self.op {
            Operation::Layout(Layout::EmbedConcat { table }) => Some(*table),
            _ => None,
        }
    }
}

/// Which nodes route, by which routing vector, over how many experts and to
/// how many of them, and whose hint they have.
pub proof fn a_router_says_its_own(
    routes: ValueId,
    experts: u32,
    top_k: u32,
    hint: Option<ValueId>,
    op: Linear,
)
    ensures
        (Linear::MoeTopkSoftmax { routes, experts, top_k }).as_router() == Some(
            Router { routes, experts, top_k, hint: None },
        ),
        (Linear::MoeTopkSoftmaxScaled { routes, experts, top_k }).as_router() == Some(
            Router { routes, experts, top_k, hint: None },
        ),
        (Linear::MoeTopkSigmoid { routes, experts, top_k, hint }).as_router() == Some(
            Router { routes, experts, top_k, hint },
        ),
        (Linear::MoeTopkSqrtSoftplus { routes, experts, top_k, hint }).as_router() == Some(
            Router { routes, experts, top_k, hint },
        ),
        (Linear::MoeHashRoute { routes, experts, top_k }).as_router() == Some(
            Router { routes, experts, top_k, hint: None },
        ),
        op.as_router() is None || op.as_reader() is None,
{
}

/// Which nodes read routed planes: a select its bank, with the bias beside it
/// where it has one, a sum of biases the bias.
pub proof fn a_reader_names_its_planes(routes: ValueId, bank: ValueId, bias: ValueId)
    ensures
        (Linear::MoeMatmulSelect { bank, routes }).as_reader() == Some(
            Reader { routes, first: bank, second: None },
        ),
        (Linear::MoeMatmulSelectQuant { bank, routes }).as_reader() == Some(
            Reader { routes, first: bank, second: None },
        ),
        (Linear::MoeMatmulSelectBias { bank, bias, routes }).as_reader() == Some(
            Reader { routes, first: bank, second: Some(bias) },
        ),
        (Linear::MoeBiasSum { bias, routes }).as_reader() == Some(
            Reader { routes, first: bias, second: None },
        ),
{
}

} // verus!
