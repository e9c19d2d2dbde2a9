//! Model architecture.
//!
//! Head counts, norm type and positional encoding all change the compute graph.
//! Anything unrecognised is an error, not a default.
use crate::text;
use crate::text::{debug_quote, push_decimal, same_text};
use crate::wire::F32Bits;
use vstd::prelude::*;

verus! {

/// Architecture of a checkpoint.
#[derive(Debug, Clone)]
pub struct Config {
    pub vocab_size: usize,
    pub n_layer: usize,
    pub n_head: usize,
    pub n_kv_head: usize,
    pub n_embd: usize,
    pub block_size: usize,
    pub attention: String,
    pub pos_encoding: String,
    pub activation: String,
    pub norm: String,
    pub norm_placement: String,
    pub rope_theta: F32Bits,
    pub bias: bool,
    pub tie_word_embeddings: bool,
    pub val_loss: Option<F32Bits>,
    pub trained_steps: Option<usize>,
}

/// `tie_word_embeddings` where a config file leaves it out.
pub fn default_true() -> (b: bool)
    ensures
        b,
{
    true
}

/// The refusal of a value that is not one of those supported. `expected` lists
/// them.
pub open spec fn unsupported(field: Seq<char>, value: Seq<char>, expected: Seq<char>) -> Seq<char> {
    "unsupported "@ + field + ": "@ + text::debug_text(value) + " (expected one of "@ + expected
        + ")"@
}

fn unsupported_text(field: &str, value: &str, expected: &str) -> (m: String)
    ensures
        m@ == unsupported(field@, value@, expected@),
{
    let mut m = "unsupported ".to_owned();
    m.append(field);
    m.append(": ");
    m.append(debug_quote(value).as_str());
    m.append(" (expected one of ");
    m.append(expected);
    m.append(")");
    m
}

/// The refusal of a count that another does not divide.
pub open spec fn indivisible(
    what: Seq<char>,
    n: nat,
    by: Seq<char>,
    d: nat,
) -> Seq<char> {
    what + " ("@ + text::decimal(n) + ") is not divisible by "@ + by + " ("@ + text::decimal(d)
        + ")"@
}

fn indivisible_text(what: &str, n: usize, by: &str, d: usize) -> (m: String)
    ensures
        m@ == indivisible(what@, n as nat, by@, d as nat),
{
    let mut m = what.to_owned();
    m.append(" (");
    push_decimal(&mut m, n as u64);
    m.append(") is not divisible by ");
    m.append(by);
    m.append(" (");
    push_decimal(&mut m, d as u64);
    m.append(")");
    m
}

impl Config {
    /// Why the engine cannot execute this architecture, if it cannot: the first
    /// reason, in the order they are checked.
    pub open spec fn refusal(self) -> Option<Seq<char>> {
        if self.n_head == 0 || self.n_embd % self.n_head != 0 {
            Some(
                indivisible("n_embd"@, self.n_embd as nat, "n_head"@, self.n_head as nat),
            )
        } else if self.n_kv_head == 0 || self.n_head % self.n_kv_head != 0 {
            Some(
                indivisible("n_head"@, self.n_head as nat, "n_kv_head"@, self.n_kv_head as nat),
            )
        } else if self.norm@ != "rmsnorm"@ && self.norm@ != "layernorm"@ {
            Some(unsupported("norm"@, self.norm@, "[\"rmsnorm\", \"layernorm\"]"@))
        } else if self.activation@ != "swiglu"@ && self.activation@ != "gelu"@ {
            Some(unsupported("activation"@, self.activation@, "[\"swiglu\", \"gelu\"]"@))
        } else if self.norm_placement@ != "pre"@ && self.norm_placement@ != "post"@ {
            Some(unsupported("norm_placement"@, self.norm_placement@, "[\"pre\", \"post\"]"@))
        } else if self.pos_encoding@ != "rope"@ && self.pos_encoding@ != "alibi"@
            && self.pos_encoding@ != "learned"@ && self.pos_encoding@ != "none"@ {
            Some(
                unsupported(
                    "pos_encoding"@,
                    self.pos_encoding@,
                    "[\"rope\", \"alibi\", \"learned\", \"none\"]"@,
                ),
            )
        } else {
            None
        }
    }

    /// Reject configurations this engine cannot execute correctly, loudly and
    /// at load time rather than as degraded output later.
    pub fn validate(&self) -> (r: Result<(), String>)
        ensures
            match r {
                Ok(()) => self.refusal() is None,
                Err(m) => self.refusal() == Some(m@),
            },
    {
        if self.n_head == 0 || self.n_embd % self.n_head != 0 {
            return Err(indivisible_text("n_embd", self.n_embd, "n_head", self.n_head));
        }
        if self.n_kv_head == 0 || self.n_head % self.n_kv_head != 0 {
            return Err(indivisible_text("n_head", self.n_head, "n_kv_head", self.n_kv_head));
        }
        let norm = self.norm.as_str();
        if !same_text(norm, "rmsnorm") && !same_text(norm, "layernorm") {
            return Err(unsupported_text("norm", norm, "[\"rmsnorm\", \"layernorm\"]"));
        }
        let activation = self.activation.as_str();
        if !same_text(activation, "swiglu") && !same_text(activation, "gelu") {
            return Err(unsupported_text("activation", activation, "[\"swiglu\", \"gelu\"]"));
        }
        let placement = self.norm_placement.as_str();
        if !same_text(placement, "pre") && !same_text(placement, "post") {
            return Err(unsupported_text("norm_placement", placement, "[\"pre\", \"post\"]"));
        }
        let pos = self.pos_encoding.as_str();
        if !same_text(pos, "rope") && !same_text(pos, "alibi") && !same_text(pos, "learned")
            && !same_text(pos, "none") {
            return Err(
                unsupported_text(
                    "pos_encoding",
                    pos,
                    "[\"rope\", \"alibi\", \"learned\", \"none\"]",
                ),
            );
        }
        Ok(())
    }

    /// Width of one head.
    pub fn head_dim(&self) -> (n: usize)
        requires
            self.n_head > 0,
        ensures
            n == self.n_embd / self.n_head,
    {
        self.n_embd / self.n_head
    }

    /// Query heads per KV head. 1 means every head has its own, `n_head` that
    /// all share one.
    pub fn n_rep(&self) -> (n: usize)
        requires
            self.n_kv_head > 0,
        ensures
            n == self.n_head / self.n_kv_head,
    {
        self.n_head / self.n_kv_head
    }

    /// Bytes of KV cache for one sequence of `seq_len` positions.
    pub fn kv_cache_bytes(&self, seq_len: usize) -> (n: usize)
        requires
            self.n_head > 0,
            2 * self.n_layer * self.n_kv_head * (self.n_embd / self.n_head) * seq_len * 4
                <= usize::MAX,
            2 * self.n_layer * self.n_kv_head * (self.n_embd / self.n_head) <= usize::MAX,
            2 * self.n_layer * self.n_kv_head <= usize::MAX,
            2 * self.n_layer <= usize::MAX,
        ensures
            n == 2 * self.n_layer * self.n_kv_head * (self.n_embd / self.n_head) * seq_len * 4,
    {
        let per: usize = 2 * self.n_layer * self.n_kv_head * self.head_dim();
        per * seq_len * 4
    }
}

/// In a valid architecture the query heads fall evenly to the KV heads, and the
/// heads evenly to the model width.
pub proof fn law_heads_divide_evenly(c: Config)
    requires
        c.refusal() is None,
    ensures
        c.n_head > 0,
        c.n_kv_head > 0,
        (c.n_embd / c.n_head) * c.n_head == c.n_embd,
        (c.n_head / c.n_kv_head) * c.n_kv_head == c.n_head,
{
    vstd::arithmetic::div_mod::lemma_fundamental_div_mod(c.n_embd as int, c.n_head as int);
    vstd::arithmetic::div_mod::lemma_fundamental_div_mod(c.n_head as int, c.n_kv_head as int);
    assert((c.n_embd / c.n_head) * c.n_head == c.n_head * (c.n_embd / c.n_head))
        by (nonlinear_arith);
    assert((c.n_head / c.n_kv_head) * c.n_kv_head == c.n_kv_head * (c.n_head / c.n_kv_head))
        by (nonlinear_arith);
}

/// An architecture is executed exactly where its heads divide its width, its KV
/// heads divide its heads, and each of its parts is one that the engine has.
pub proof fn law_what_is_executed(c: Config)
    ensures
        c.refusal() is None <==> {
            &&& c.n_head > 0 && c.n_embd % c.n_head == 0
            &&& c.n_kv_head > 0 && c.n_head % c.n_kv_head == 0
            &&& c.norm@ == "rmsnorm"@ || c.norm@ == "layernorm"@
            &&& c.activation@ == "swiglu"@ || c.activation@ == "gelu"@
            &&& c.norm_placement@ == "pre"@ || c.norm_placement@ == "post"@
            &&& c.pos_encoding@ == "rope"@ || c.pos_encoding@ == "alibi"@ || c.pos_encoding@ == "learned"@
                || c.pos_encoding@ == "none"@
        },
{
}

} // verus!
