//! Which upstream server takes a request.

use crate::config::UpstreamEntry;
use crate::routing_laws;
use crate::text;
use crate::text::{same_text, strip_prefix, trim_end};
use vstd::hash_map::StringHashMap;
use vstd::prelude::*;

verus! {

broadcast use vstd::string::group_string_axioms;

/// Whether the server takes requests for `path`.
pub open spec fn serves(upstream: UpstreamEntry, path: Seq<char>) -> bool {
    upstream.path_prefix@.is_prefix_of(path)
}

/// The longest path prefix under which some server takes requests for `path`.
pub open spec fn best_prefix(upstreams: Seq<UpstreamEntry>, path: Seq<char>) -> Option<Seq<char>>
    decreases upstreams.len(),
{
    if upstreams.len() == 0 {
        None
    } else {
        let last = upstreams.last();
        match best_prefix(upstreams.drop_last(), path) {
            Some(prefix) => if serves(last, path) && prefix.len() < last.path_prefix@.len() {
                Some(last.path_prefix@)
            } else {
                Some(prefix)
            },
            None => if serves(last, path) {
                Some(last.path_prefix@)
            } else {
                None
            },
        }
    }
}

/// Whether a server has the path prefix `prefix`.
pub open spec fn has_prefix(prefix: Seq<char>) -> spec_fn(UpstreamEntry) -> bool {
    |u: UpstreamEntry| u.path_prefix@ == prefix
}

/// The servers that share a path prefix, in the order of the configuration.
pub open spec fn group(upstreams: Seq<UpstreamEntry>, prefix: Seq<char>) -> Seq<UpstreamEntry> {
    upstreams.filter(has_prefix(prefix))
}

/// The turn of a group: the index of its server that takes the next request.
pub open spec fn turn_of(turns: Map<Seq<char>, nat>, prefix: Seq<char>) -> nat {
    if turns.contains_key(prefix) {
        turns[prefix]
    } else {
        0
    }
}

/// The member of a group of `n` servers that takes the next request.
pub open spec fn picked(turns: Map<Seq<char>, nat>, prefix: Seq<char>, n: nat) -> nat {
    turn_of(turns, prefix) % n
}

/// The turns after a request to a group of `n` servers.
pub open spec fn turns_after(turns: Map<Seq<char>, nat>, prefix: Seq<char>, n: nat) -> Map<
    Seq<char>,
    nat,
> {
    turns.insert(prefix, (picked(turns, prefix, n) + 1) % n)
}

/// What is put behind a server's base: it starts with a slash, unless it is empty or
/// only a query.
pub open spec fn after_base(rest: Seq<char>) -> Seq<char> {
    if rest.len() == 0 || rest[0] == '/' || rest[0] == '?' {
        rest
    } else {
        seq!['/'] + rest
    }
}

/// Where a request goes: the server's base, without slashes at its end, followed by
/// the path and query without the prefix.
pub open spec fn target(base: Seq<char>, prefix: Seq<char>, path_and_query: Seq<char>) -> Seq<char> {
    text::without_trailing(base, '/') + after_base(
        match text::without_prefix(path_and_query, prefix) {
            Some(rest) => rest,
            None => path_and_query,
        },
    )
}

/// Where a request for `path` goes, if any server takes it.
pub open spec fn route_of(
    upstreams: Seq<UpstreamEntry>,
    turns: Map<Seq<char>, nat>,
    path: Seq<char>,
    path_and_query: Seq<char>,
) -> Option<Seq<char>> {
    match best_prefix(upstreams, path) {
        Some(prefix) => {
            let members = group(upstreams, prefix);
            let member = members[picked(turns, prefix, members.len()) as int];
            Some(target(member.base_url@, prefix, path_and_query))
        },
        None => None,
    }
}

/// The turns after a request for `path`.
pub open spec fn turns_then(
    upstreams: Seq<UpstreamEntry>,
    turns: Map<Seq<char>, nat>,
    path: Seq<char>,
) -> Map<Seq<char>, nat> {
    match best_prefix(upstreams, path) {
        Some(prefix) => turns_after(turns, prefix, group(upstreams, prefix).len()),
        None => turns,
    }
}

/// Where a request goes, given the server's base, its prefix, and the path and query.
pub fn target_url(base: &str, prefix: &str, path_and_query: &str) -> (url: String)
    ensures
        url@ == target(base@, prefix@, path_and_query@),
{
    let mut url: String = trim_end(base, '/');
    let rest: String = match strip_prefix(path_and_query, prefix) {
        Some(rest) => rest,
        None => path_and_query.to_owned(),
    };
    if rest.as_str().unicode_len() > 0 {
        let first: char = rest.as_str().get_char(0);
        if first != '/' && first != '?' {
            proof {
                reveal_strlit("/");
                assert("/"@ =~= seq!['/']);
            }
            url.append("/");
        }
    }
    url.append(rest.as_str());
    proof {
        assert(url@ =~= target(base@, prefix@, path_and_query@));
    }
    url
}

/// The longest path prefix under which some server takes requests for `path`.
pub fn longest_prefix(upstreams: &Vec<UpstreamEntry>, path: &str) -> (prefix: Option<String>)
    ensures
        text::text_in(prefix) == best_prefix(upstreams@, path@),
{
    let mut best: Option<String> = None;
    let mut i: usize = 0;
    proof {
        assert(upstreams@.take(0) =~= Seq::<UpstreamEntry>::empty());
    }
    while i < upstreams.len()
        invariant
            i <= upstreams@.len(),
            text::text_in(best) == best_prefix(upstreams@.take(i as int), path@),
        decreases upstreams@.len() - i,
    {
        let prefix: &str = upstreams[i].path_prefix.as_str();
        let len: usize = prefix.unicode_len();
        let longer: bool = match &best {
            Some(best) => best.as_str().unicode_len() < len,
            None => true,
        };
        let fits: bool = strip_prefix(path, prefix).is_some();
        proof {
            assert(upstreams@.take(i + 1).drop_last() =~= upstreams@.take(i as int));
            assert(fits == serves(upstreams@[i as int], path@));
        }
        if fits && longer {
            best = Some(prefix.to_owned());
        }
        i += 1;
    }
    proof {
        assert(upstreams@.take(i as int) =~= upstreams@);
    }
    best
}

/// The positions of the servers that share a path prefix.
fn members_of(upstreams: &Vec<UpstreamEntry>, prefix: &str) -> (members: Vec<usize>)
    ensures
        members@.len() == group(upstreams@, prefix@).len(),
        forall|k: int|
            0 <= k < members@.len() ==> {
                &&& (#[trigger] members@[k]) < upstreams@.len()
                &&& upstreams@[members@[k] as int] == group(upstreams@, prefix@)[k]
            },
{
    let mut members: Vec<usize> = Vec::new();
    let mut i: usize = 0;
    proof {
        reveal(Seq::filter);
        assert(upstreams@.take(0) =~= Seq::<UpstreamEntry>::empty());
    }
    while i < upstreams.len()
        invariant
            i <= upstreams@.len(),
            members@.len() == group(upstreams@.take(i as int), prefix@).len(),
            forall|k: int|
                0 <= k < members@.len() ==> {
                    &&& (#[trigger] members@[k]) < upstreams@.len()
                    &&& upstreams@[members@[k] as int] == group(
                        upstreams@.take(i as int),
                        prefix@,
                    )[k]
                },
        decreases upstreams@.len() - i,
    {
        proof {
            reveal(Seq::filter);
            assert(upstreams@.take(i + 1).drop_last() =~= upstreams@.take(i as int));
        }
        if same_text(upstreams[i].path_prefix.as_str(), prefix) {
            members.push(i);
        }
        i += 1;
    }
    proof {
        assert(upstreams@.take(i as int) =~= upstreams@);
    }
    members
}

/// The turns of the groups of servers.
pub struct RoundRobin {
    next: StringHashMap<usize>,
}

impl View for RoundRobin {
    type V = Map<Seq<char>, nat>;

    closed spec fn view(&self) -> Map<Seq<char>, nat> {
        self.next@.map_values(|turn: usize| turn as nat)
    }
}

impl RoundRobin {
    /// Every group starts with its first server.
    pub fn new() -> (turns: Self)
        ensures
            turns@ == Map::<Seq<char>, nat>::empty(),
    {
        let turns: RoundRobin = RoundRobin { next: StringHashMap::new() };
        proof {
            assert(turns@ =~= Map::<Seq<char>, nat>::empty());
        }
        turns
    }

    /// Picks a member of a group of `n` servers, and passes the turn on.
    pub fn pick(&mut self, prefix: &str, n: usize) -> (member: usize)
        requires
            n > 0,
        ensures
            member == picked(old(self)@, prefix@, n as nat),
            member < n,
            final(self)@ == turns_after(old(self)@, prefix@, n as nat),
    {
        let turn: usize = match self.next.get(prefix) {
            Some(turn) => *turn,
            None => 0,
        };
        let member: usize = turn % n;
        let after: usize = if member + 1 == n {
            0
        } else {
            member + 1
        };
        self.next.insert(prefix.to_owned(), after);
        proof {
            if member + 1 < n {
                vstd::arithmetic::div_mod::lemma_small_mod((member + 1) as nat, n as nat);
            } else {
                vstd::arithmetic::div_mod::lemma_mod_self_0(n as int);
            }
            assert(self@ =~= turns_after(old(self)@, prefix@, n as nat));
        }
        member
    }

    /// Where a request for `path` goes. The servers that share the longest prefix take
    /// turns.
    pub fn route(&mut self, upstreams: &Vec<UpstreamEntry>, path: &str, path_and_query: &str) -> (url:
        Option<String>)
        ensures
            text::text_in(url) == route_of(upstreams@, old(self)@, path@, path_and_query@),
            final(self)@ == turns_then(upstreams@, old(self)@, path@),
            url is None <==> forall|i: int|
                0 <= i < upstreams@.len() ==> !(
                #[trigger] upstreams@[i]).path_prefix@.is_prefix_of(path@),
            url matches Some(url) ==> routing_laws::goes_to_a_server(
                upstreams@,
                path@,
                path_and_query@,
                url@,
            ),
    {
        match longest_prefix(upstreams, path) {
            Some(prefix) => {
                let members: Vec<usize> = members_of(upstreams, prefix.as_str());
                proof {
                    best_group_has_members(upstreams@, path@);
                }
                let member: usize = self.pick(prefix.as_str(), members.len());
                let upstream: &UpstreamEntry = &upstreams[members[member]];
                proof {
                    routing_laws::a_route_goes_to_a_server(
                        upstreams@,
                        old(self)@,
                        path@,
                        path_and_query@,
                    );
                }
                Some(target_url(upstream.base_url.as_str(), prefix.as_str(), path_and_query))
            },
            None => {
                proof {
                    routing_laws::a_path_goes_by_its_longest_prefix(
                        upstreams@,
                        path@,
                        Seq::empty(),
                    );
                }
                None
            },
        }
    }
}

// ---------------------------------------------------------------------------
// Laws
// ---------------------------------------------------------------------------

/// Prefixes of one text that are as long as each other are the same.
proof fn same_length_same_prefix(a: Seq<char>, b: Seq<char>, path: Seq<char>)
    requires
        a.is_prefix_of(path),
        b.is_prefix_of(path),
        a.len() == b.len(),
    ensures
        a == b,
{
    assert(a =~= b);
}

/// The longest matching prefix wins: it is a prefix of the path, some server has it,
/// every server that takes the path has a shorter one or the same, and there is none
/// exactly where no server takes the path.
pub proof fn longest_prefix_wins(upstreams: Seq<UpstreamEntry>, path: Seq<char>)
    ensures
        match best_prefix(upstreams, path) {
            Some(prefix) => {
                &&& prefix.is_prefix_of(path)
                &&& exists|i: int|
                    0 <= i < upstreams.len() && (#[trigger] upstreams[i]).path_prefix@ == prefix
                &&& forall|i: int|
                    0 <= i < upstreams.len() && serves(#[trigger] upstreams[i], path)
                        ==> upstreams[i].path_prefix@.len() < prefix.len()
                        || upstreams[i].path_prefix@ == prefix
            },
            None => forall|i: int|
                0 <= i < upstreams.len() ==> !serves(#[trigger] upstreams[i], path),
        },
    decreases upstreams.len(),
{
    if upstreams.len() > 0 {
        let rest = upstreams.drop_last();
        let last = upstreams.last();
        longest_prefix_wins(rest, path);
        assert forall|i: int| 0 <= i < rest.len() implies rest[i] == #[trigger] upstreams[i] by {}
        assert(last == upstreams[upstreams.len() - 1]);
        match best_prefix(upstreams, path) {
            Some(prefix) => {
                if best_prefix(rest, path) == Some(prefix) {
                    let i = choose|i: int|
                        0 <= i < rest.len() && (#[trigger] rest[i]).path_prefix@ == prefix;
                    assert(upstreams[i].path_prefix@ == prefix);
                }
                assert forall|i: int|
                    0 <= i < upstreams.len() && serves(
                        #[trigger] upstreams[i],
                        path,
                    ) implies upstreams[i].path_prefix@.len() < prefix.len()
                    || upstreams[i].path_prefix@ == prefix by {
                    if i < rest.len() {
                        assert(serves(rest[i], path));
                    } else if last.path_prefix@.len() >= prefix.len() {
                        same_length_same_prefix(last.path_prefix@, prefix, path);
                    }
                }
            },
            None => {
                assert forall|i: int| 0 <= i < upstreams.len() implies !serves(
                    #[trigger] upstreams[i],
                    path,
                ) by {
                    if i < rest.len() {
                        assert(!serves(rest[i], path));
                    }
                }
            },
        }
    }
}

/// Where there is a longest prefix, its group is not empty.
proof fn best_group_has_members(upstreams: Seq<UpstreamEntry>, path: Seq<char>)
    ensures
        best_prefix(upstreams, path) matches Some(prefix) ==> group(upstreams, prefix).len() > 0,
{
    longest_prefix_wins(upstreams, path);
    match best_prefix(upstreams, path) {
        Some(prefix) => {
            let same = has_prefix(prefix);
            let i = choose|i: int|
                0 <= i < upstreams.len() && (#[trigger] upstreams[i]).path_prefix@ == prefix;
            assert(same(upstreams[i]));
            upstreams.lemma_filter_contains(same, i);
        },
        None => {},
    }
}

/// A request is sent on exactly if some server takes its path, and then to a server
/// whose prefix is the longest that matches.
pub proof fn routed_to_the_longest_prefix(
    upstreams: Seq<UpstreamEntry>,
    turns: Map<Seq<char>, nat>,
    path: Seq<char>,
    path_and_query: Seq<char>,
)
    ensures
        route_of(upstreams, turns, path, path_and_query) is Some <==> exists|i: int|
            0 <= i < upstreams.len() && serves(#[trigger] upstreams[i], path),
        route_of(upstreams, turns, path, path_and_query) matches Some(url) ==> exists|i: int|
            0 <= i < upstreams.len() && serves(#[trigger] upstreams[i], path) && best_prefix(
                upstreams,
                path,
            ) == Some(upstreams[i].path_prefix@) && url == target(
                upstreams[i].base_url@,
                upstreams[i].path_prefix@,
                path_and_query,
            ),
{
    longest_prefix_wins(upstreams, path);
    best_group_has_members(upstreams, path);
    match best_prefix(upstreams, path) {
        Some(prefix) => {
            let same = has_prefix(prefix);
            let members = group(upstreams, prefix);
            let k = picked(turns, prefix, members.len()) as int;
            upstreams.lemma_filter_pred(same, k);
            member_is_listed(upstreams, same, k);
            let i = choose|i: int| 0 <= i < upstreams.len() && upstreams[i] == members[k];
            assert(serves(upstreams[i], path));
        },
        None => {},
    }
}

/// A request stays on the server that was chosen: its URL is the server's base, without
/// slashes at its end, and what follows starts a path or a query.
pub proof fn stays_on_the_server(base: Seq<char>, prefix: Seq<char>, path_and_query: Seq<char>)
    ensures
        ({
            let server = text::without_trailing(base, '/');
            let url = target(base, prefix, path_and_query);
            &&& server.is_prefix_of(url)
            &&& url.len() == server.len() || url[server.len() as int] == '/'
                || url[server.len() as int] == '?'
        }),
{
    let server = text::without_trailing(base, '/');
    let url = target(base, prefix, path_and_query);
    assert(server =~= url.subrange(0, server.len() as int));
}

/// What a filter keeps was there before.
proof fn member_is_listed(s: Seq<UpstreamEntry>, keep: spec_fn(UpstreamEntry) -> bool, k: int)
    requires
        0 <= k < s.filter(keep).len(),
    ensures
        exists|i: int| 0 <= i < s.len() && s[i] == s.filter(keep)[k],
    decreases s.len(),
{
    reveal(Seq::filter);
    if s.len() > 0 {
        let rest = s.drop_last();
        if k < rest.filter(keep).len() {
            member_is_listed(rest, keep, k);
            let i = choose|i: int| 0 <= i < rest.len() && rest[i] == rest.filter(keep)[k];
            assert(s[i] == s.filter(keep)[k]);
        } else {
            assert(s[s.len() - 1] == s.filter(keep)[k]);
        }
    }
}

/// The turns after `k` requests to a group of `n` servers.
pub open spec fn turns_after_many(
    turns: Map<Seq<char>, nat>,
    prefix: Seq<char>,
    n: nat,
    k: nat,
) -> Map<Seq<char>, nat>
    decreases k,
{
    if k == 0 {
        turns
    } else {
        turns_after(turns_after_many(turns, prefix, n, (k - 1) as nat), prefix, n)
    }
}

/// The servers of a group follow each other in order, round and round.
pub proof fn turns_go_round(turns: Map<Seq<char>, nat>, prefix: Seq<char>, n: nat, k: nat)
    requires
        n > 0,
    ensures
        picked(turns_after_many(turns, prefix, n, k), prefix, n) == (picked(turns, prefix, n) + k)
            % n,
    decreases k,
{
    let first = picked(turns, prefix, n);
    if k == 0 {
        vstd::arithmetic::div_mod::lemma_small_mod(first, n);
    } else {
        let before = (k - 1) as nat;
        turns_go_round(turns, prefix, n, before);
        let reached = picked(turns_after_many(turns, prefix, n, before), prefix, n);
        assert(turn_of(turns_after_many(turns, prefix, n, k), prefix) == (reached + 1) % n);
        assert(reached == (first + before) % n);
        vstd::arithmetic::div_mod::lemma_add_mod_noop_right(1, (first + before) as int, n as int);
        vstd::arithmetic::div_mod::lemma_mod_twice((reached + 1) as int, n as int);
    }
}

/// Of `n` requests in a row to a group of `n` servers, each server takes exactly one.
pub proof fn each_server_takes_one(
    turns: Map<Seq<char>, nat>,
    prefix: Seq<char>,
    n: nat,
    member: nat,
)
    requires
        member < n,
    ensures
        exists|k: nat|
            k < n && #[trigger] picked(turns_after_many(turns, prefix, n, k), prefix, n) == member,
        forall|j: nat, k: nat|
            j < n && k < n && #[trigger] picked(turns_after_many(turns, prefix, n, j), prefix, n)
                == member && #[trigger] picked(turns_after_many(turns, prefix, n, k), prefix, n)
                == member ==> j == k,
{
    let first = picked(turns, prefix, n);
    let k = if member >= first {
        (member - first) as nat
    } else {
        (member + n - first) as nat
    };
    turns_go_round(turns, prefix, n, k);
    if member >= first {
        vstd::arithmetic::div_mod::lemma_small_mod(member, n);
    } else {
        wraps_once(member, n);
    }
    assert(picked(turns_after_many(turns, prefix, n, k), prefix, n) == member);
    assert forall|i: nat, j: nat|
        i < n && j < n && #[trigger] picked(turns_after_many(turns, prefix, n, i), prefix, n)
            == member && #[trigger] picked(turns_after_many(turns, prefix, n, j), prefix, n)
            == member implies i == j by {
        turns_go_round(turns, prefix, n, i);
        turns_go_round(turns, prefix, n, j);
        position_is_unique(first, i, member, n);
        position_is_unique(first, j, member, n);
    }
}

/// A number below `n` comes back after a full round.
proof fn wraps_once(member: nat, n: nat)
    requires
        member < n,
    ensures
        (member + n) % n == member,
{
    vstd::arithmetic::div_mod::lemma_mod_add_multiples_vanish(member as int, n as int);
    vstd::arithmetic::div_mod::lemma_small_mod(member, n);
}

/// Within one round, a member is reached at one place only.
proof fn position_is_unique(first: nat, k: nat, member: nat, n: nat)
    requires
        first < n,
        k < n,
        member < n,
        (first + k) % n == member,
    ensures
        k == if member >= first {
            member - first
        } else {
            member + n - first
        },
{
    if first + k < n {
        vstd::arithmetic::div_mod::lemma_small_mod(first + k, n);
    } else {
        wraps_once((first + k - n) as nat, n);
    }
}

/// A request to one group leaves the turns of the others alone.
pub proof fn groups_take_turns_apart(
    turns: Map<Seq<char>, nat>,
    prefix: Seq<char>,
    n: nat,
    other: Seq<char>,
)
    requires
        n > 0,
        other != prefix,
    ensures
        turn_of(turns_after(turns, prefix, n), other) == turn_of(turns, other),
{
    let after = turns_after(turns, prefix, n);
    assert(after.contains_key(other) == turns.contains_key(other));
    assert(turns.contains_key(other) ==> after[other] == turns[other]);
}

} // verus!
