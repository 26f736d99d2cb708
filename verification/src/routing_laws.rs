//! Where requests go, told from the configured servers and the request itself.

use crate::config::UpstreamEntry;
use crate::routing;
use crate::text;
use vstd::prelude::*;

verus! {

// ---------------------------------------------------------------------------
// The URL
// ---------------------------------------------------------------------------

/// What is cut off at the end is exactly the run of the character there.
pub proof fn only_the_trailing_run_is_cut(s: Seq<char>, c: char)
    ensures
        ({
            let kept = text::without_trailing(s, c);
            &&& kept.len() <= s.len()
            &&& kept == s.take(kept.len() as int)
            &&& forall|i: int| kept.len() <= i < s.len() ==> #[trigger] s[i] == c
            &&& kept.len() > 0 ==> s[kept.len() - 1] != c
        }),
    decreases s.len(),
{
    let kept = text::without_trailing(s, c);
    if s.len() > 0 && s.last() == c {
        let rest = s.drop_last();
        only_the_trailing_run_is_cut(rest, c);
        assert(kept =~= s.take(kept.len() as int));
        assert forall|i: int| kept.len() <= i < s.len() implies #[trigger] s[i] == c by {
            if i < rest.len() {
                assert(rest[i] == s[i]);
            }
        }
        if kept.len() > 0 {
            assert(rest[kept.len() - 1] == s[kept.len() - 1]);
        }
    } else {
        assert(kept =~= s.take(kept.len() as int));
    }
}

/// What follows a prefix is what the prefix was put before.
pub proof fn a_prefix_is_taken_off(s: Seq<char>, prefix: Seq<char>, rest: Seq<char>)
    ensures
        text::without_prefix(s, prefix) == Some(rest) <==> s == prefix + rest,
{
    if text::without_prefix(s, prefix) == Some(rest) {
        assert(s =~= prefix + rest);
    }
    if s == prefix + rest {
        assert(prefix =~= s.subrange(0, prefix.len() as int));
        assert(s.skip(prefix.len() as int) =~= rest);
    }
}

/// `n` slashes.
pub open spec fn slashes(n: nat) -> Seq<char> {
    Seq::new(n, |i: int| '/')
}

/// The server's address with `rest` behind it: as it is where it is empty or starts a
/// path or a query, else behind a slash.
pub open spec fn joined(server: Seq<char>, rest: Seq<char>) -> Seq<char> {
    if rest.len() == 0 || rest[0] == '/' || rest[0] == '?' {
        server + rest
    } else {
        server + seq!['/'] + rest
    }
}

/// Whether `url` is the base, without the slashes at its end, and all of the path and
/// query but the prefix.
pub open spec fn is_url_of(
    url: Seq<char>,
    base: Seq<char>,
    prefix: Seq<char>,
    path_and_query: Seq<char>,
) -> bool {
    exists|server: Seq<char>, n: nat, rest: Seq<char>|
        {
            &&& base == server + #[trigger] slashes(n)
            &&& server.len() > 0 ==> server[server.len() - 1] != '/'
            &&& path_and_query == prefix + rest || (rest == path_and_query
                && !prefix.is_prefix_of(path_and_query))
            &&& url == #[trigger] joined(server, rest)
        }
}

/// The base's slashes at its end are dropped, the prefix is stripped, and everything
/// that follows it is kept: the rest of the path, and the query to its last character.
pub proof fn a_url_keeps_what_follows_the_prefix(
    server: Seq<char>,
    n: nat,
    prefix: Seq<char>,
    rest: Seq<char>,
)
    requires
        server.len() > 0 ==> server[server.len() - 1] != '/',
    ensures
        routing::target(server + slashes(n), prefix, prefix + rest) == joined(server, rest),
        !prefix.is_prefix_of(rest) ==> routing::target(server + slashes(n), prefix, rest) == joined(
            server,
            rest,
        ),
{
    let base = server + slashes(n);
    only_the_trailing_run_is_cut(base, '/');
    let kept = text::without_trailing(base, '/');
    if kept.len() > server.len() {
        assert(base[kept.len() - 1] == '/');
    } else if kept.len() < server.len() {
        assert(base[server.len() - 1] == server[server.len() - 1]);
    }
    assert(kept =~= server);
    a_prefix_is_taken_off(prefix + rest, prefix, rest);
    assert(server + (seq!['/'] + rest) =~= server + seq!['/'] + rest);
}

/// Every URL is made of the base and of the path and query in that way.
pub proof fn a_target_is_the_url(base: Seq<char>, prefix: Seq<char>, path_and_query: Seq<char>)
    ensures
        is_url_of(routing::target(base, prefix, path_and_query), base, prefix, path_and_query),
{
    only_the_trailing_run_is_cut(base, '/');
    let server = text::without_trailing(base, '/');
    let n = (base.len() - server.len()) as nat;
    assert(base =~= server + slashes(n)) by {
        assert forall|i: int| 0 <= i < base.len() implies base[i] == (server + slashes(n))[i] by {
            if i < server.len() {
                assert(server[i] == base.take(server.len() as int)[i]);
            }
        }
    }
    let rest = if prefix.is_prefix_of(path_and_query) {
        path_and_query.skip(prefix.len() as int)
    } else {
        path_and_query
    };
    if prefix.is_prefix_of(path_and_query) {
        assert(path_and_query =~= prefix + rest);
    }
    a_url_keeps_what_follows_the_prefix(server, n, prefix, rest);
    assert(routing::target(base, prefix, path_and_query) == joined(server, rest));
    assert(base == server + slashes(n));
}

/// A query is passed on unchanged: the URL ends with it.
pub proof fn a_query_is_passed_on(
    base: Seq<char>,
    prefix: Seq<char>,
    path: Seq<char>,
    query: Seq<char>,
)
    requires
        prefix.is_prefix_of(path),
    ensures
        ({
            let with = routing::target(base, prefix, path + seq!['?'] + query);
            let without = routing::target(base, prefix, path);
            with == without + seq!['?'] + query
        }),
{
    let server = text::without_trailing(base, '/');
    let rest = path.skip(prefix.len() as int);
    let longer = path + seq!['?'] + query;
    assert(path =~= prefix + rest);
    assert(longer =~= prefix + (rest + seq!['?'] + query));
    a_prefix_is_taken_off(path, prefix, rest);
    a_prefix_is_taken_off(longer, prefix, rest + seq!['?'] + query);
    let more = rest + seq!['?'] + query;
    assert(more[0] == if rest.len() > 0 {
        rest[0]
    } else {
        '?'
    });
    assert(routing::target(base, prefix, longer) =~= routing::target(base, prefix, path)
        + seq!['?'] + query);
}

// ---------------------------------------------------------------------------
// Groups
// ---------------------------------------------------------------------------

/// Whether `at` lists the positions of the servers with the prefix, in order, and all of
/// them.
pub open spec fn positions_of(upstreams: Seq<UpstreamEntry>, prefix: Seq<char>, at: Seq<int>) -> bool {
    &&& forall|k: int|
        0 <= k < at.len() ==> 0 <= #[trigger] at[k] < upstreams.len()
            && upstreams[at[k]].path_prefix@ == prefix
    &&& forall|k: int, l: int| 0 <= k < l < at.len() ==> #[trigger] at[k] < #[trigger] at[l]
    &&& forall|i: int|
        0 <= i < upstreams.len() && (#[trigger] upstreams[i]).path_prefix@ == prefix
            ==> at.contains(i)
}

proof fn group_positions(upstreams: Seq<UpstreamEntry>, prefix: Seq<char>) -> (at: Seq<int>)
    ensures
        positions_of(upstreams, prefix, at),
        at.len() == routing::group(upstreams, prefix).len(),
        forall|k: int|
            0 <= k < at.len() ==> routing::group(upstreams, prefix)[k] == upstreams[#[trigger] at[k]],
    decreases upstreams.len(),
{
    reveal(Seq::filter);
    if upstreams.len() == 0 {
        Seq::empty()
    } else {
        let rest = upstreams.drop_last();
        let n = upstreams.len() - 1;
        let at = group_positions(rest, prefix);
        assert forall|i: int| 0 <= i < n implies rest[i] == #[trigger] upstreams[i] by {}
        if upstreams[n].path_prefix@ == prefix {
            let more = at.push(n);
            assert forall|i: int|
                0 <= i < upstreams.len() && (#[trigger] upstreams[i]).path_prefix@
                    == prefix implies more.contains(i) by {
                if i < n {
                    assert(rest[i].path_prefix@ == prefix);
                    assert(at.contains(i));
                    let k = choose|k: int| 0 <= k < at.len() && at[k] == i;
                    assert(more[k] == i);
                } else {
                    assert(more[at.len() as int] == i);
                }
            }
            assert forall|k: int| 0 <= k < more.len() implies 0 <= #[trigger] more[k]
                < upstreams.len() && upstreams[more[k]].path_prefix@ == prefix
                && routing::group(upstreams, prefix)[k] == upstreams[more[k]] by {
                if k < at.len() {
                    assert(more[k] == at[k]);
                }
            }
            assert forall|k: int, l: int| 0 <= k < l < more.len() implies #[trigger] more[k]
                < #[trigger] more[l] by {
                assert(more[k] == at[k]);
                if l < at.len() {
                    assert(more[l] == at[l]);
                }
            }
            more
        } else {
            assert forall|i: int|
                0 <= i < upstreams.len() && (#[trigger] upstreams[i]).path_prefix@
                    == prefix implies at.contains(i) by {
                assert(rest[i].path_prefix@ == prefix);
            }
            assert forall|k: int| 0 <= k < at.len() implies 0 <= #[trigger] at[k] < upstreams.len()
                && upstreams[at[k]].path_prefix@ == prefix && routing::group(
                upstreams,
                prefix,
            )[k] == upstreams[at[k]] by {
                assert(rest[at[k]] == upstreams[at[k]]);
            }
            at
        }
    }
}

/// The prefix under which a path is served is the longest that any server has and the
/// path starts with. There is none exactly if the path starts with no server's prefix.
pub proof fn a_path_goes_by_its_longest_prefix(
    upstreams: Seq<UpstreamEntry>,
    path: Seq<char>,
    prefix: Seq<char>,
)
    ensures
        routing::best_prefix(upstreams, path) == Some(prefix) <==> {
            &&& prefix.is_prefix_of(path)
            &&& exists|i: int|
                0 <= i < upstreams.len() && (#[trigger] upstreams[i]).path_prefix@ == prefix
            &&& forall|i: int|
                0 <= i < upstreams.len() && (#[trigger] upstreams[i]).path_prefix@.is_prefix_of(
                    path,
                ) ==> upstreams[i].path_prefix@.len() <= prefix.len()
        },
        routing::best_prefix(upstreams, path) is None <==> forall|i: int|
            0 <= i < upstreams.len() ==> !(#[trigger] upstreams[i]).path_prefix@.is_prefix_of(path),
{
    routing::longest_prefix_wins(upstreams, path);
    if let Some(best) = routing::best_prefix(upstreams, path) {
        let k = choose|i: int|
            0 <= i < upstreams.len() && (#[trigger] upstreams[i]).path_prefix@ == best;
        assert(routing::serves(upstreams[k], path));
        assert forall|i: int|
            0 <= i < upstreams.len() && (#[trigger] upstreams[i]).path_prefix@.is_prefix_of(
                path,
            ) implies upstreams[i].path_prefix@.len() <= best.len() by {
            assert(routing::serves(upstreams[i], path));
        }
        if prefix.is_prefix_of(path) && prefix.len() == best.len() {
            assert(prefix =~= best);
        }
        if exists|i: int|
            0 <= i < upstreams.len() && (#[trigger] upstreams[i]).path_prefix@ == prefix {
            let j = choose|i: int|
                0 <= i < upstreams.len() && (#[trigger] upstreams[i]).path_prefix@ == prefix;
            if prefix.is_prefix_of(path) {
                assert(routing::serves(upstreams[j], path));
            }
        }
    } else {
        assert forall|i: int| 0 <= i < upstreams.len() implies !(
        #[trigger] upstreams[i]).path_prefix@.is_prefix_of(path) by {
            assert(!routing::serves(upstreams[i], path));
        }
    }
}

/// Whether the URL is made of the whole request and of a server for it: one whose prefix
/// is the longest that the path starts with. It is the base of that server, without the
/// slashes at its end, and all of the path and query but the prefix, behind a slash where
/// it starts neither a path nor a query.
pub open spec fn goes_to_a_server(
    upstreams: Seq<UpstreamEntry>,
    path: Seq<char>,
    path_and_query: Seq<char>,
    url: Seq<char>,
) -> bool {
    exists|i: int|
        {
            let prefix = (#[trigger] upstreams[i]).path_prefix@;
            &&& 0 <= i < upstreams.len()
            &&& prefix.is_prefix_of(path)
            &&& forall|j: int|
                0 <= j < upstreams.len() && (#[trigger] upstreams[j]).path_prefix@.is_prefix_of(
                    path,
                ) ==> upstreams[j].path_prefix@.len() <= prefix.len()
            &&& is_url_of(url, upstreams[i].base_url@, prefix, path_and_query)
        }
}

/// A request goes to a server for it, if there is one.
pub proof fn a_route_goes_to_a_server(
    upstreams: Seq<UpstreamEntry>,
    turns: Map<Seq<char>, nat>,
    path: Seq<char>,
    path_and_query: Seq<char>,
)
    ensures
        match routing::route_of(upstreams, turns, path, path_and_query) {
            Some(url) => goes_to_a_server(upstreams, path, path_and_query, url),
            None => forall|i: int|
                0 <= i < upstreams.len() ==> !(#[trigger] upstreams[i]).path_prefix@.is_prefix_of(
                    path,
                ),
        },
{
    routing::routed_to_the_longest_prefix(upstreams, turns, path, path_and_query);
    if let Some(url) = routing::route_of(upstreams, turns, path, path_and_query) {
        let i = choose|i: int|
            0 <= i < upstreams.len() && routing::serves(#[trigger] upstreams[i], path)
                && routing::best_prefix(upstreams, path) == Some(upstreams[i].path_prefix@)
                && url == routing::target(
                upstreams[i].base_url@,
                upstreams[i].path_prefix@,
                path_and_query,
            );
        a_path_goes_by_its_longest_prefix(upstreams, path, upstreams[i].path_prefix@);
        a_target_is_the_url(upstreams[i].base_url@, upstreams[i].path_prefix@, path_and_query);
    } else {
        a_path_goes_by_its_longest_prefix(upstreams, path, Seq::empty());
    }
}

/// A request to a path: the path, and the path with the query.
pub struct Asking {
    pub path: Seq<char>,
    pub path_and_query: Seq<char>,
}

/// Where requests go, one after another.
pub open spec fn urls(
    upstreams: Seq<UpstreamEntry>,
    turns: Map<Seq<char>, nat>,
    requests: Seq<Asking>,
) -> Seq<Option<Seq<char>>>
    decreases requests.len(),
{
    if requests.len() == 0 {
        Seq::empty()
    } else {
        seq![
            routing::route_of(upstreams, turns, requests[0].path, requests[0].path_and_query),
        ] + urls(
            upstreams,
            routing::turns_then(upstreams, turns, requests[0].path),
            requests.skip(1),
        )
    }
}

proof fn urls_from(
    upstreams: Seq<UpstreamEntry>,
    turns: Map<Seq<char>, nat>,
    prefix: Seq<char>,
    requests: Seq<Asking>,
    at: Seq<int>,
)
    requires
        forall|k: int|
            0 <= k < requests.len() ==> routing::best_prefix(
                upstreams,
                (#[trigger] requests[k]).path,
            ) == Some(prefix),
        positions_of(upstreams, prefix, at),
        at.len() == routing::group(upstreams, prefix).len(),
        at.len() > 0,
        forall|k: int|
            0 <= k < at.len() ==> routing::group(upstreams, prefix)[k] == upstreams[#[trigger] at[k]],
    ensures
        ({
            let start = routing::turn_of(turns, prefix) as int % at.len() as int;
            let all = urls(upstreams, turns, requests);
            &&& all.len() == requests.len()
            &&& forall|k: int|
                0 <= k < requests.len() ==> #[trigger] all[k] == Some(
                    routing::target(
                        upstreams[at[(start + k) % at.len() as int]].base_url@,
                        prefix,
                        requests[k].path_and_query,
                    ),
                )
        }),
    decreases requests.len(),
{
    if requests.len() > 0 {
        let n = at.len() as int;
        let start = routing::turn_of(turns, prefix) as int % n;
        let all = urls(upstreams, turns, requests);
        let next = routing::turns_then(upstreams, turns, requests[0].path);
        let rest = requests.skip(1);
        assert(routing::best_prefix(upstreams, requests[0].path) == Some(prefix));
        assert forall|k: int| 0 <= k < rest.len() implies routing::best_prefix(
            upstreams,
            (#[trigger] rest[k]).path,
        ) == Some(prefix) by {
            assert(rest[k] == requests[k + 1]);
        }
        urls_from(upstreams, next, prefix, rest, at);
        let later = routing::turn_of(next, prefix) as int % n;
        assert(routing::turn_of(next, prefix) as int == (start + 1) % n);
        vstd::arithmetic::div_mod::lemma_mod_twice(start + 1, n);
        assert(later == (start + 1) % n);
        let others = urls(upstreams, next, rest);
        assert forall|k: int| 0 <= k < requests.len() implies #[trigger] all[k] == Some(
            routing::target(
                upstreams[at[(start + k) % n]].base_url@,
                prefix,
                requests[k].path_and_query,
            ),
        ) by {
            if k == 0 {
                vstd::arithmetic::div_mod::lemma_small_mod(start as nat, n as nat);
            } else {
                assert(all[k] == others[k - 1]);
                assert(rest[k - 1] == requests[k]);
                vstd::arithmetic::div_mod::lemma_add_mod_noop_right(k - 1, start + 1, n);
                assert((later + (k - 1)) % n == (start + k) % n);
            }
        }
    }
}

/// Whether requests go to the servers at the positions `at` round and round, from the
/// one at `start`: the URL of each is that server's base with the request behind it.
pub open spec fn go_round(
    upstreams: Seq<UpstreamEntry>,
    prefix: Seq<char>,
    at: Seq<int>,
    start: int,
    requests: Seq<Asking>,
    all: Seq<Option<Seq<char>>>,
) -> bool {
    &&& positions_of(upstreams, prefix, at)
    &&& 0 <= start < at.len()
    &&& all.len() == requests.len()
    &&& forall|k: int|
        0 <= k < requests.len() ==> {
            &&& (#[trigger] all[k]) is Some
            &&& is_url_of(
                all[k]->0,
                upstreams[at[(start + k) % at.len() as int]].base_url@,
                prefix,
                requests[k].path_and_query,
            )
        }
}

/// The servers that share a prefix take turns. Requests in a row whose longest prefix is
/// the same go to the servers with that prefix, in the order of the configuration, round
/// and round: the URL of each is built from the server whose turn it is. The first
/// request of all goes to the first of them.
pub proof fn servers_take_turns(
    upstreams: Seq<UpstreamEntry>,
    turns: Map<Seq<char>, nat>,
    prefix: Seq<char>,
    requests: Seq<Asking>,
)
    requires
        requests.len() > 0,
        forall|k: int|
            0 <= k < requests.len() ==> routing::best_prefix(
                upstreams,
                (#[trigger] requests[k]).path,
            ) == Some(prefix),
    ensures
        exists|at: Seq<int>, start: int|
            {
                &&& #[trigger] go_round(
                    upstreams,
                    prefix,
                    at,
                    start,
                    requests,
                    urls(upstreams, turns, requests),
                )
                &&& turns == Map::<Seq<char>, nat>::empty() ==> start == 0
            },
{
    let at = group_positions(upstreams, prefix);
    routing::longest_prefix_wins(upstreams, requests[0].path);
    assert(routing::best_prefix(upstreams, requests[0].path) == Some(prefix));
    let i = choose|i: int|
        0 <= i < upstreams.len() && (#[trigger] upstreams[i]).path_prefix@ == prefix;
    assert(at.contains(i));
    urls_from(upstreams, turns, prefix, requests, at);
    let n = at.len() as int;
    let start = routing::turn_of(turns, prefix) as int % n;
    let all = urls(upstreams, turns, requests);
    if turns == Map::<Seq<char>, nat>::empty() {
        vstd::arithmetic::div_mod::lemma_small_mod(0, n as nat);
    }
    assert forall|k: int| 0 <= k < requests.len() implies {
        &&& (#[trigger] all[k]) is Some
        &&& is_url_of(
            all[k]->0,
            upstreams[at[(start + k) % at.len() as int]].base_url@,
            prefix,
            requests[k].path_and_query,
        )
    } by {
        a_target_is_the_url(
            upstreams[at[(start + k) % at.len() as int]].base_url@,
            prefix,
            requests[k].path_and_query,
        );
    }
    assert(go_round(upstreams, prefix, at, start, requests, urls(upstreams, turns, requests)));
}

/// Of as many requests in a row as there are servers with the prefix, each server takes
/// exactly one.
pub proof fn each_server_takes_one_request(
    upstreams: Seq<UpstreamEntry>,
    turns: Map<Seq<char>, nat>,
    prefix: Seq<char>,
    request: Asking,
    at: Seq<int>,
    m: int,
)
    requires
        routing::best_prefix(upstreams, request.path) == Some(prefix),
        positions_of(upstreams, prefix, at),
        0 <= m < at.len(),
        forall|k: int, l: int|
            0 <= k < l < at.len() ==> routing::target(
                upstreams[#[trigger] at[k]].base_url@,
                prefix,
                request.path_and_query,
            ) != routing::target(
                upstreams[#[trigger] at[l]].base_url@,
                prefix,
                request.path_and_query,
            ),
    ensures
        ({
            let all = urls(upstreams, turns, Seq::new(at.len(), |k: int| request));
            let url = Some(
                routing::target(upstreams[at[m]].base_url@, prefix, request.path_and_query),
            );
            &&& all.len() == at.len()
            &&& exists|k: int| 0 <= k < all.len() && #[trigger] all[k] == url
            &&& forall|k: int, l: int|
                0 <= k < all.len() && 0 <= l < all.len() && #[trigger] all[k] == url
                    && #[trigger] all[l] == url ==> k == l
        }),
{
    let own = group_positions(upstreams, prefix);
    same_positions(upstreams, prefix, at, own);
    let requests = Seq::new(at.len(), |k: int| request);
    urls_from(upstreams, turns, prefix, requests, at);
    let n = at.len() as int;
    let start = routing::turn_of(turns, prefix) as int % n;
    let all = urls(upstreams, turns, requests);
    let k = if m >= start {
        m - start
    } else {
        m + n - start
    };
    place_in_the_round(start, k, n);
    assert((start + k) % n == m);
    assert(all[k] == Some(
        routing::target(upstreams[at[m]].base_url@, prefix, requests[k].path_and_query),
    ));
    assert forall|k: int, l: int|
        0 <= k < all.len() && 0 <= l < all.len() && #[trigger] all[k] == Some(
            routing::target(upstreams[at[m]].base_url@, prefix, request.path_and_query),
        ) && #[trigger] all[l] == Some(
            routing::target(upstreams[at[m]].base_url@, prefix, request.path_and_query),
        ) implies k == l by {
        place_in_the_round(start, k, n);
        place_in_the_round(start, l, n);
        let x = (start + k) % n;
        let y = (start + l) % n;
        assert(requests[k] == request && requests[l] == request);
        assert(x == m) by {
            if x < m {
                assert(at[x] < at[m]);
            } else if x > m {
                assert(at[m] < at[x]);
            }
        }
        assert(y == m) by {
            if y < m {
                assert(at[y] < at[m]);
            } else if y > m {
                assert(at[m] < at[y]);
            }
        }
    }
}

proof fn place_in_the_round(start: int, k: int, n: int)
    requires
        0 <= start < n,
        0 <= k < n,
    ensures
        (start + k) % n == if start + k < n {
            start + k
        } else {
            start + k - n
        },
{
    if start + k < n {
        vstd::arithmetic::div_mod::lemma_small_mod((start + k) as nat, n as nat);
    } else {
        vstd::arithmetic::div_mod::lemma_mod_add_multiples_vanish(start + k - n, n);
        vstd::arithmetic::div_mod::lemma_small_mod((start + k - n) as nat, n as nat);
    }
}

/// There is one list of the positions.
proof fn same_positions(
    upstreams: Seq<UpstreamEntry>,
    prefix: Seq<char>,
    a: Seq<int>,
    b: Seq<int>,
)
    requires
        positions_of(upstreams, prefix, a),
        positions_of(upstreams, prefix, b),
    ensures
        a == b,
{
    assert forall|n: int| 0 <= n <= a.len() && n <= b.len() implies a.take(n) == #[trigger] b.take(
        n,
    ) by {
        same_start(upstreams, prefix, a, b, n);
    }
    no_longer(upstreams, prefix, a, b);
    no_longer(upstreams, prefix, b, a);
    assert(a.take(a.len() as int) =~= a);
    assert(b.take(a.len() as int) =~= b);
}

proof fn same_start(
    upstreams: Seq<UpstreamEntry>,
    prefix: Seq<char>,
    a: Seq<int>,
    b: Seq<int>,
    n: int,
)
    requires
        positions_of(upstreams, prefix, a),
        positions_of(upstreams, prefix, b),
        0 <= n <= a.len(),
        n <= b.len(),
    ensures
        a.take(n) == b.take(n),
    decreases n,
{
    if n > 0 {
        same_start(upstreams, prefix, a, b, n - 1);
        let x = a[n - 1];
        let y = b[n - 1];
        assert(upstreams[x].path_prefix@ == prefix && upstreams[y].path_prefix@ == prefix);
        let i = choose|i: int| 0 <= i < b.len() && b[i] == x;
        let j = choose|j: int| 0 <= j < a.len() && a[j] == y;
        assert(b.contains(x) && a.contains(y));
        if i < n - 1 {
            assert(b.take(n - 1)[i] == x && a.take(n - 1)[i] == a[i]);
            assert(a[i] < a[n - 1]);
        }
        if j < n - 1 {
            assert(a.take(n - 1)[j] == y && b.take(n - 1)[j] == b[j]);
            assert(b[j] < b[n - 1]);
        }
        assert(i >= n - 1 && j >= n - 1);
        if i > n - 1 {
            assert(b[n - 1] < b[i]);
        }
        if j > n - 1 {
            assert(a[n - 1] < a[j]);
        }
        assert(x == y);
        assert(a.take(n) =~= a.take(n - 1).push(x));
        assert(b.take(n) =~= b.take(n - 1).push(y));
    }
}

proof fn no_longer(
    upstreams: Seq<UpstreamEntry>,
    prefix: Seq<char>,
    a: Seq<int>,
    b: Seq<int>,
)
    requires
        positions_of(upstreams, prefix, a),
        positions_of(upstreams, prefix, b),
    ensures
        b.len() <= a.len(),
{
    if a.len() < b.len() {
        let n = a.len() as int;
        same_start(upstreams, prefix, a, b, n);
        let x = b[n];
        assert(upstreams[x].path_prefix@ == prefix);
        assert(a.contains(x));
        let i = choose|i: int| 0 <= i < a.len() && a[i] == x;
        assert(a.take(n)[i] == b.take(n)[i]);
        assert(b[i] < b[n]);
    }
}

/// A request for one group leaves alone where the requests for others go.
pub proof fn groups_do_not_disturb_each_other(
    upstreams: Seq<UpstreamEntry>,
    turns: Map<Seq<char>, nat>,
    request: Asking,
    other: Seq<char>,
)
    requires
        routing::best_prefix(upstreams, request.path) != routing::best_prefix(upstreams, other),
    ensures
        routing::route_of(
            upstreams,
            routing::turns_then(upstreams, turns, other),
            request.path,
            request.path_and_query,
        ) == routing::route_of(upstreams, turns, request.path, request.path_and_query),
{
    if let Some(p) = routing::best_prefix(upstreams, other) {
        if let Some(q) = routing::best_prefix(upstreams, request.path) {
            routing::longest_prefix_wins(upstreams, other);
            let at = group_positions(upstreams, p);
            let i = choose|i: int|
                0 <= i < upstreams.len() && (#[trigger] upstreams[i]).path_prefix@ == p;
            assert(at.contains(i));
            routing::groups_take_turns_apart(turns, p, routing::group(upstreams, p).len(), q);
        }
    }
}

} // verus!
