//! What request and response bodies say: the model asked for, and the tokens used.

use crate::json;
use crate::json::{count_of_body, field_of_body};
use crate::text;
use crate::text::split_pieces;
use vstd::prelude::*;

verus! {

broadcast use vstd::string::group_string_axioms;

/// The model that a request body names.
pub fn extract_model(body: &[u8]) -> (model: Option<String>)
    ensures
        text::text_in(model) == json::body_field(body@, "model"@),
{
    field_of_body(body, "model")
}

/// The model a request is counted under: `*` where its body names none.
pub open spec fn model_asked(named: Option<Seq<char>>) -> Seq<char> {
    match named {
        Some(model) => model,
        None => "*"@,
    }
}

/// The model a request is counted under, given the one that its body names.
pub fn model_or_any(named: Option<String>) -> (model: String)
    ensures
        model@ == model_asked(text::text_in(named)),
{
    match named {
        Some(model) => model,
        None => "*".to_owned(),
    }
}

/// The family of a model: the part of its name before the first slash.
pub open spec fn family(model: Seq<char>) -> Seq<char> {
    model.take(text::first_at(model, '/'))
}

/// The family of a model.
pub fn model_family(model: &str) -> (r: String)
    ensures
        r@ == family(model@),
{
    let parts: Vec<String> = split_pieces(model, '/', 2);
    proof {
        text::first_at_finds(model@, '/');
        assert(text::texts(parts@)[0] == family(model@)) by {
            assert(model@.take(model@.len() as int) =~= model@);
        }
        assert(text::texts(parts@).len() == parts@.len());
        assert(text::texts(parts@)[0] == parts@[0]@);
    }
    parts[0].clone()
}

/// The tokens that a response reports, as far as it does.
#[derive(Debug, Clone, Copy)]
pub struct UsageFields {
    pub total: Option<u64>,
    pub input: Option<u64>,
    pub output: Option<u64>,
}

/// A count that is zero where it is not reported.
pub open spec fn count_or_none(count: Option<u64>) -> u64 {
    match count {
        Some(n) => n,
        None => 0,
    }
}

/// The tokens that a response is counted with: the total where it is reported, else
/// the sum of input and output, unless that is zero or too large to count.
pub open spec fn tokens_in(usage: UsageFields) -> Option<u64> {
    let sum = count_or_none(usage.input) + count_or_none(usage.output);
    match usage.total {
        Some(total) => Some(total),
        None => if 0 < sum <= u64::MAX {
            Some(sum as u64)
        } else {
            None
        },
    }
}

/// The fields of a response body that report tokens.
pub open spec fn usage_fields(body: Seq<u8>) -> UsageFields {
    UsageFields {
        total: json::body_count(body, "usage"@, "total_tokens"@),
        input: json::body_count(body, "usage"@, "input_tokens"@),
        output: json::body_count(body, "usage"@, "output_tokens"@),
    }
}

/// Reads the fields of a response body that report tokens.
pub fn read_usage(body: &[u8]) -> (usage: UsageFields)
    ensures
        usage == usage_fields(body@),
{
    UsageFields {
        total: count_of_body(body, "usage", "total_tokens"),
        input: count_of_body(body, "usage", "input_tokens"),
        output: count_of_body(body, "usage", "output_tokens"),
    }
}

fn or_none(count: Option<u64>) -> (n: u64)
    ensures
        n == count_or_none(count),
{
    match count {
        Some(n) => n,
        None => 0,
    }
}

impl UsageFields {
    /// No tokens are reported.
    pub fn none() -> (usage: Self)
        ensures
            usage == (UsageFields { total: None, input: None, output: None }),
    {
        UsageFields { total: None, input: None, output: None }
    }

    /// The input tokens, zero where they are not reported.
    pub fn input_tokens(&self) -> (n: u64)
        ensures
            n == count_or_none(self.input),
    {
        or_none(self.input)
    }

    /// The output tokens, zero where they are not reported.
    pub fn output_tokens(&self) -> (n: u64)
        ensures
            n == count_or_none(self.output),
    {
        or_none(self.output)
    }

    /// The tokens that the response is counted with.
    pub fn tokens(&self) -> (tokens: Option<u64>)
        ensures
            tokens == tokens_in(*self),
    {
        match self.total {
            Some(total) => Some(total),
            None => match or_none(self.input).checked_add(or_none(self.output)) {
                Some(sum) => if sum > 0 {
                    Some(sum)
                } else {
                    None
                },
                None => None,
            },
        }
    }
}

/// The tokens that a response body is counted with.
pub fn extract_usage(body: &[u8]) -> (tokens: Option<u64>)
    ensures
        tokens == tokens_in(usage_fields(body@)),
{
    read_usage(body).tokens()
}

/// A name without a slash is its own family, and `family/name` belongs to `family`.
pub proof fn family_comes_before_the_slash(name: Seq<char>, rest: Seq<char>)
    requires
        !name.contains('/'),
    ensures
        family(name) == name,
        family(name + seq!['/'] + rest) == name,
{
    let whole = name + seq!['/'] + rest;
    assert forall|k: int| 0 <= k < name.len() implies name[k] != '/' && whole[k] != '/' by {
        assert(name.contains(name[k]));
    }
    text::first_at_is(name, '/', name.len() as int);
    text::first_at_is(whole, '/', name.len() as int);
    assert(name.take(name.len() as int) =~= name);
    assert(whole.take(name.len() as int) =~= name);
}

} // verus!
