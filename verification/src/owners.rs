//! The names of the owners of API keys.

use crate::config::DatabaseConfig;
use crate::text;
use crate::text::{decimal, string_or};
use vstd::hash_map::StringHashMap;
use vstd::prelude::*;

verus! {

/// The owner of each known API key.
pub struct KeyOwners {
    names: StringHashMap<String>,
}

impl View for KeyOwners {
    type V = Map<Seq<char>, Seq<char>>;

    closed spec fn view(&self) -> Map<Seq<char>, Seq<char>> {
        self.names@.map_values(|name: String| name@)
    }
}

/// The owners that a list of keys and names gives. A later row for the same key
/// replaces an earlier one.
pub open spec fn owners_in(rows: Seq<(String, String)>) -> Map<Seq<char>, Seq<char>>
    decreases rows.len(),
{
    if rows.len() == 0 {
        Map::empty()
    } else {
        owners_in(rows.drop_last()).insert(rows.last().0@, rows.last().1@)
    }
}

/// The name under `api_key`, empty where it is unknown.
pub open spec fn owner_name(owners: Map<Seq<char>, Seq<char>>, api_key: Seq<char>) -> Seq<char> {
    if owners.contains_key(api_key) {
        owners[api_key]
    } else {
        Seq::empty()
    }
}

impl KeyOwners {
    /// No owners.
    pub fn new() -> (owners: Self)
        ensures
            owners@ == Map::<Seq<char>, Seq<char>>::empty(),
    {
        let owners: KeyOwners = KeyOwners { names: StringHashMap::new() };
        proof {
            assert(owners@ =~= Map::<Seq<char>, Seq<char>>::empty());
        }
        owners
    }

    /// The owners that the rows of the key table give.
    pub fn from_rows(rows: Vec<(String, String)>) -> (owners: Self)
        ensures
            owners@ == owners_in(rows@),
    {
        let mut owners: KeyOwners = KeyOwners::new();
        let mut i: usize = 0;
        proof {
            assert(rows@.take(0) =~= Seq::<(String, String)>::empty());
        }
        while i < rows.len()
            invariant
                i <= rows@.len(),
                owners@ == owners_in(rows@.take(i as int)),
            decreases rows@.len() - i,
        {
            let ghost before = owners@;
            owners.names.insert(rows[i].0.clone(), rows[i].1.clone());
            proof {
                assert(rows@.take(i + 1).drop_last() =~= rows@.take(i as int));
                assert(owners@ =~= before.insert(rows@[i as int].0@, rows@[i as int].1@));
            }
            i += 1;
        }
        proof {
            assert(rows@.take(i as int) =~= rows@);
        }
        owners
    }

    /// The name under `api_key`.
    pub fn get(&self, api_key: &str) -> (name: Option<String>)
        ensures
            text::text_in(name) == if self@.contains_key(api_key@) {
                Some(self@[api_key@])
            } else {
                None
            },
    {
        match self.names.get(api_key) {
            Some(name) => Some(name.clone()),
            None => None,
        }
    }

    /// The name under `api_key`, empty where it is unknown.
    pub fn owner_of(&self, api_key: &str) -> (name: String)
        ensures
            name@ == owner_name(self@, api_key@),
    {
        match self.get(api_key) {
            Some(name) => name,
            None => String::new(),
        }
    }
}

/// The connection string for a PostgreSQL database.
pub open spec fn dsn_text(
    host: Seq<char>,
    port: u16,
    user: Seq<char>,
    password: Seq<char>,
    dbname: Seq<char>,
) -> Seq<char> {
    "postgres://"@ + user + ":"@ + password + "@"@ + host + ":"@ + text::decimal_text(port as nat)
        + "/"@ + dbname
}

/// The connection string for a PostgreSQL database.
pub fn postgres_dsn(host: &str, port: u16, user: &str, password: &str, dbname: &str) -> (s: String)
    ensures
        s@ == dsn_text(host@, port, user@, password@, dbname@),
{
    let mut s: String = "postgres://".to_owned();
    s.append(user);
    s.append(":");
    s.append(password);
    s.append("@");
    s.append(host);
    s.append(":");
    s.append(decimal(port as u64).as_str());
    s.append("/");
    s.append(dbname);
    s
}

/// Where to find the key table, with nothing left open.
pub struct DatabaseTarget {
    pub host: String,
    pub port: u16,
    pub user: String,
    pub password: String,
    pub dbname: String,
}

impl DatabaseConfig {
    /// Fills in what the configuration leaves open: PostgreSQL's own port and names,
    /// on this machine.
    pub fn target(&self) -> (t: DatabaseTarget)
        ensures
            t.host@ == text::text_or(self.host, "localhost"@),
            t.port == match self.port {
                Some(port) => port,
                None => 5432,
            },
            t.user@ == text::text_or(self.user, "postgres"@),
            t.password@ == text::text_or(self.password, "postgres"@),
            t.dbname@ == text::text_or(self.dbname, "postgres"@),
    {
        DatabaseTarget {
            host: string_or(&self.host, "localhost"),
            port: match self.port {
                Some(port) => port,
                None => 5432,
            },
            user: string_or(&self.user, "postgres"),
            password: string_or(&self.password, "postgres"),
            dbname: string_or(&self.dbname, "postgres"),
        }
    }
}

/// The last row for a key decides its owner.
pub proof fn last_row_decides(rows: Seq<(String, String)>, i: int)
    requires
        0 <= i < rows.len(),
        forall|j: int| i < j < rows.len() ==> (#[trigger] rows[j]).0@ != rows[i].0@,
    ensures
        owners_in(rows).contains_key(rows[i].0@),
        owner_name(owners_in(rows), rows[i].0@) == rows[i].1@,
    decreases rows.len(),
{
    let rest = rows.drop_last();
    if i < rest.len() {
        assert(rest[i] == rows[i]);
        assert forall|j: int| i < j < rest.len() implies (#[trigger] rest[j]).0@ != rest[i].0@ by {
            assert(rest[j] == rows[j]);
        }
        last_row_decides(rest, i);
        assert(rows[rows.len() - 1].0@ != rows[i].0@);
    }
}

/// A key without a row has no owner.
pub proof fn no_row_no_owner(rows: Seq<(String, String)>, api_key: Seq<char>)
    requires
        forall|j: int| 0 <= j < rows.len() ==> (#[trigger] rows[j]).0@ != api_key,
    ensures
        !owners_in(rows).contains_key(api_key),
        owner_name(owners_in(rows), api_key) == Seq::<char>::empty(),
    decreases rows.len(),
{
    if rows.len() > 0 {
        let rest = rows.drop_last();
        assert forall|j: int| 0 <= j < rest.len() implies (#[trigger] rest[j]).0@ != api_key by {
            assert(rest[j] == rows[j]);
        }
        no_row_no_owner(rest, api_key);
        assert(rows[rows.len() - 1].0@ != api_key);
    }
}

} // verus!
