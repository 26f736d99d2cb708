//! Usage statistics and the request log.

use crate::owners;
use crate::owners::KeyOwners;
use vstd::prelude::*;

verus! {

/// The tokens that a model was used for.
#[derive(Debug, Clone)]
pub struct ModelStat {
    pub model: String,
    pub tokens: u64,
}

/// The tokens that an API key was used for.
#[derive(Debug, Clone)]
pub struct UserStat {
    pub api_key: String,
    pub owner: String,
    pub tokens: u64,
}

/// An entry of the request log.
#[derive(Debug, Clone)]
pub struct RequestLog {
    pub id: String,
    pub api_key: String,
    pub owner: String,
    pub model: String,
    pub method: String,
    pub path: String,
    pub status: u16,
    pub latency_ms: u64,
    pub input_tokens: u64,
    pub output_tokens: u64,
    pub cache_tokens: u64,
    pub timestamp: String,
}

/// How many entries of the request log a query returns at most.
pub const MAX_LOGS: usize = 200;

/// How long after a cleanup the next one is due, in seconds.
pub const CLEANUP_SECS: u64 = 3600;

/// A stored number read back as the unsigned number that was stored.
pub open spec fn unsigned(n: i64) -> int {
    if n >= 0 {
        n as int
    } else {
        n + 0x1_0000_0000_0000_0000
    }
}

/// Reads back a number that is stored with a sign.
pub fn stored_count(n: i64) -> (count: u64)
    ensures
        count as int == unsigned(n),
{
    proof {
        assert(n < 0 ==> #[verifier::truncate] (n as u64) == n + 0x1_0000_0000_0000_0000)
            by (bit_vector);
    }
    #[verifier::truncate] (n as u64)
}

/// Reads back a status code that is stored as a wider number: its lowest sixteen bits.
pub fn stored_status(n: i32) -> (status: u16)
    ensures
        status as int == n as int % 0x1_0000,
{
    let low: u32 = (n & 0xffff) as u32;
    proof {
        assert((n & 0xffff) as u32 <= 0xffff) by (bit_vector);
        assert(0 <= (n & 0xffff) <= 0xffff) by (bit_vector);
        assert(n >= 0 ==> (n & 0xffff) == n % 0x1_0000) by (bit_vector);
        assert(n < 0 ==> (n & 0xffff) == ((n as i64) + 0x8000_0000i64) % 0x1_0000) by (bit_vector);
    }
    low as u16
}

/// What a row of the models' usage says.
pub open spec fn model_row(row: (String, i64)) -> (Seq<char>, int) {
    (row.0@, unsigned(row.1))
}

/// What a list of the models' usage says.
pub open spec fn models_said(stats: Seq<ModelStat>) -> Seq<(Seq<char>, int)> {
    stats.map_values(|s: ModelStat| (s.model@, s.tokens as int))
}

/// The rows that could be read.
pub open spec fn readable(rows: Seq<Option<(String, i64)>>) -> Seq<(String, i64)>
    decreases rows.len(),
{
    if rows.len() == 0 {
        Seq::empty()
    } else {
        match rows.last() {
            Some(row) => readable(rows.drop_last()).push(row),
            None => readable(rows.drop_last()),
        }
    }
}

/// The models' usage, from the rows of the query for it. A row that cannot be read is
/// left out.
pub fn model_stats(rows: Vec<Option<(String, i64)>>) -> (stats: Vec<ModelStat>)
    ensures
        models_said(stats@) == readable(rows@).map_values(|row: (String, i64)| model_row(row)),
{
    let mut stats: Vec<ModelStat> = Vec::new();
    let mut i: usize = 0;
    proof {
        assert(rows@.take(0) =~= Seq::<Option<(String, i64)>>::empty());
        assert(models_said(stats@) =~= readable(rows@.take(0)).map_values(
            |row: (String, i64)| model_row(row),
        ));
    }
    while i < rows.len()
        invariant
            i <= rows@.len(),
            models_said(stats@) == readable(rows@.take(i as int)).map_values(
                |row: (String, i64)| model_row(row),
            ),
        decreases rows@.len() - i,
    {
        let ghost before = stats@;
        proof {
            assert(rows@.take(i + 1).drop_last() =~= rows@.take(i as int));
        }
        match &rows[i] {
            Some(row) => {
                stats.push(ModelStat { model: row.0.clone(), tokens: stored_count(row.1) });
                proof {
                    assert(models_said(stats@) =~= models_said(before).push(model_row(*row)));
                }
            },
            None => {},
        }
        i += 1;
        proof {
            assert(models_said(stats@) =~= readable(rows@.take(i as int)).map_values(
                |row: (String, i64)| model_row(row),
            ));
        }
    }
    proof {
        assert(rows@.take(i as int) =~= rows@);
    }
    stats
}

/// What a row of the keys' usage says: the key, its owner and the tokens.
pub open spec fn user_row(row: (String, i64), owners: Map<Seq<char>, Seq<char>>) -> (
    Seq<char>,
    Seq<char>,
    int,
) {
    (row.0@, owners::owner_name(owners, row.0@), unsigned(row.1))
}

/// What a list of the keys' usage says.
pub open spec fn users_said(stats: Seq<UserStat>) -> Seq<(Seq<char>, Seq<char>, int)> {
    stats.map_values(|s: UserStat| (s.api_key@, s.owner@, s.tokens as int))
}

/// The keys' usage, from the rows of the query for it, with the owners' names, which
/// are empty where they are unknown. A row that cannot be read is left out.
pub fn user_stats(rows: Vec<Option<(String, i64)>>, owners: &KeyOwners) -> (stats: Vec<UserStat>)
    ensures
        users_said(stats@) == readable(rows@).map_values(
            |row: (String, i64)| user_row(row, owners@),
        ),
{
    let mut stats: Vec<UserStat> = Vec::new();
    let mut i: usize = 0;
    proof {
        assert(rows@.take(0) =~= Seq::<Option<(String, i64)>>::empty());
        assert(users_said(stats@) =~= readable(rows@.take(0)).map_values(
            |row: (String, i64)| user_row(row, owners@),
        ));
    }
    while i < rows.len()
        invariant
            i <= rows@.len(),
            users_said(stats@) == readable(rows@.take(i as int)).map_values(
                |row: (String, i64)| user_row(row, owners@),
            ),
        decreases rows@.len() - i,
    {
        let ghost before = stats@;
        proof {
            assert(rows@.take(i + 1).drop_last() =~= rows@.take(i as int));
        }
        match &rows[i] {
            Some(row) => {
                let api_key: String = row.0.clone();
                let owner: String = owners.owner_of(api_key.as_str());
                stats.push(UserStat { api_key, owner, tokens: stored_count(row.1) });
                proof {
                    assert(users_said(stats@) =~= users_said(before).push(
                        user_row(*row, owners@),
                    ));
                }
            },
            None => {},
        }
        i += 1;
        proof {
            assert(users_said(stats@) =~= readable(rows@.take(i as int)).map_values(
                |row: (String, i64)| user_row(row, owners@),
            ));
        }
    }
    proof {
        assert(rows@.take(i as int) =~= rows@);
    }
    stats
}

/// An entry of the request log as it is stored.
pub struct LogRow {
    pub id: String,
    pub api_key: String,
    pub owner: String,
    pub model: String,
    pub method: String,
    pub path: String,
    pub status: i32,
    pub latency_ms: i64,
    pub input_tokens: i64,
    pub output_tokens: i64,
    pub cache_tokens: i64,
    pub timestamp: String,
}

/// Whether `log` is what `row` stores.
pub open spec fn reads_as(row: LogRow, log: RequestLog) -> bool {
    &&& log.id@ == row.id@
    &&& log.api_key@ == row.api_key@
    &&& log.owner@ == row.owner@
    &&& log.model@ == row.model@
    &&& log.method@ == row.method@
    &&& log.path@ == row.path@
    &&& log.status as int == row.status as int % 0x1_0000
    &&& log.latency_ms as int == unsigned(row.latency_ms)
    &&& log.input_tokens as int == unsigned(row.input_tokens)
    &&& log.output_tokens as int == unsigned(row.output_tokens)
    &&& log.cache_tokens as int == unsigned(row.cache_tokens)
    &&& log.timestamp@ == row.timestamp@
}

/// Whether `row` holds the fields of `log`, its numbers as they are.
pub open spec fn stores(row: LogRow, log: RequestLog) -> bool {
    &&& row.id@ == log.id@
    &&& row.api_key@ == log.api_key@
    &&& row.owner@ == log.owner@
    &&& row.model@ == log.model@
    &&& row.method@ == log.method@
    &&& row.path@ == log.path@
    &&& row.status == log.status
    &&& row.latency_ms == log.latency_ms
    &&& row.input_tokens == log.input_tokens
    &&& row.output_tokens == log.output_tokens
    &&& row.cache_tokens == log.cache_tokens
    &&& row.timestamp@ == log.timestamp@
}

impl LogRow {
    /// The entry that the row stores.
    pub fn read(self) -> (log: RequestLog)
        ensures
            reads_as(self, log),
    {
        RequestLog {
            id: self.id,
            api_key: self.api_key,
            owner: self.owner,
            model: self.model,
            method: self.method,
            path: self.path,
            status: stored_status(self.status),
            latency_ms: stored_count(self.latency_ms),
            input_tokens: stored_count(self.input_tokens),
            output_tokens: stored_count(self.output_tokens),
            cache_tokens: stored_count(self.cache_tokens),
            timestamp: self.timestamp,
        }
    }
}

/// An entry of the request log is read back from its row with all fields as they were.
pub proof fn stored_entry_reads_back(log: RequestLog, row: LogRow, read: RequestLog)
    requires
        stores(row, log),
        reads_as(row, read),
    ensures
        read.id@ == log.id@,
        read.api_key@ == log.api_key@,
        read.owner@ == log.owner@,
        read.model@ == log.model@,
        read.method@ == log.method@,
        read.path@ == log.path@,
        read.status == log.status,
        read.latency_ms == log.latency_ms,
        read.input_tokens == log.input_tokens,
        read.output_tokens == log.output_tokens,
        read.cache_tokens == log.cache_tokens,
        read.timestamp@ == log.timestamp@,
{
    vstd::arithmetic::div_mod::lemma_small_mod(log.status as nat, 0x1_0000);
}

/// What the background writer does in one round.
#[derive(Debug, Clone, Copy, PartialEq, Eq, Structural)]
pub struct WriterRound {
    /// The batch is written.
    pub flush: bool,
    /// Old entries are removed.
    pub clean: bool,
}

/// What the background writer does in a round in which it has collected `batch`
/// items, so many seconds after the last cleanup.
pub fn writer_round(batch: usize, secs_since_cleanup: u64) -> (round: WriterRound)
    ensures
        round.flush <==> batch > 0,
        round.clean <==> secs_since_cleanup >= 3600,
{
    WriterRound { flush: batch > 0, clean: secs_since_cleanup >= CLEANUP_SECS }
}

/// What is stored is read back: a number up to the largest with a sign as itself, and a
/// status code as itself.
pub proof fn stored_numbers_read_back(count: u64, status: u16)
    requires
        count <= i64::MAX,
    ensures
        unsigned(count as i64) == count,
        status as i32 as int % 0x1_0000 == status,
{
    vstd::arithmetic::div_mod::lemma_small_mod(status as nat, 0x1_0000);
}

/// Every row that can be read is reported, in order, and no other.
pub proof fn every_readable_row_counts(rows: Seq<Option<(String, i64)>>)
    requires
        forall|i: int| 0 <= i < rows.len() ==> (#[trigger] rows[i]) is Some,
    ensures
        readable(rows).len() == rows.len(),
        forall|i: int| 0 <= i < rows.len() ==> Some(#[trigger] readable(rows)[i]) == rows[i],
    decreases rows.len(),
{
    if rows.len() > 0 {
        let rest = rows.drop_last();
        assert forall|i: int| 0 <= i < rest.len() implies (#[trigger] rest[i]) is Some by {
            assert(rows[i] is Some);
        }
        every_readable_row_counts(rest);
        assert(rows[rows.len() - 1] is Some);
        assert forall|i: int| 0 <= i < rows.len() implies Some(#[trigger] readable(rows)[i])
            == rows[i] by {
            if i < rest.len() {
                assert(Some(readable(rest)[i]) == rest[i]);
            }
        }
    }
}

} // verus!
