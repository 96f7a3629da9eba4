//! Laws of addresses and of the projects that they belong to.

use vstd::prelude::*;

use crate::authority::{
    authority_table, in_domain, official_of, official_url, without_www, AuthorityView,
};
use crate::laws::runs::code;
use crate::text::{lowered, pieces, Separator};
use crate::weburl::{parsed_url, parts_of, path_segments_of, url_parts_of, UrlPartsView};

verus! {

/// The prefix that a host may have any number of times.
pub open spec fn www() -> Seq<char> {
    seq!['w', 'w', 'w', '.']
}

/// A `www.` before a host changes nothing, and a host without it stays as it
/// is.
pub proof fn law_www_is_ignored(host: Seq<char>)
    ensures
        without_www(www() + host) == without_www(host),
        (forall|rest: Seq<char>| host != #[trigger] (www() + rest)) ==> without_www(host) == host,
{
    let longer = www() + host;
    assert(longer.take(4) =~= www());
    assert(longer.skip(4) =~= host);
    if forall|rest: Seq<char>| host != #[trigger] (www() + rest) {
        if host.len() >= 4 && host.take(4) == www() {
            assert(host =~= www() + host.skip(4));
        }
    }
}

/// Whether a host is a label, a dot and a domain.
pub open spec fn below(host: Seq<char>, label: Seq<char>, domain: Seq<char>) -> bool {
    host == label + seq!['.'] + domain
}

/// A host lies in a domain exactly if it is the domain, or the domain with a
/// dot and anything before it.
pub proof fn law_in_domain(host: Seq<char>, domain: Seq<char>)
    ensures
        in_domain(host, domain) <==> host == domain || exists|label: Seq<char>| #[trigger]
            below(host, label, domain),
{
    let suffix = seq!['.'] + domain;
    if suffix.is_suffix_of(host) {
        let label = host.take(host.len() - suffix.len());
        let tail = host.subrange(host.len() - suffix.len(), host.len() as int);
        assert(tail == suffix);
        assert(host =~= label + tail);
        assert(label + suffix =~= label + seq!['.'] + domain);
        assert(below(host, label, domain));
    }
    if exists|label: Seq<char>| #[trigger] below(host, label, domain) {
        let label = choose|label: Seq<char>| #[trigger] below(host, label, domain);
        assert(host.subrange(host.len() - suffix.len(), host.len() as int) =~= suffix);
    }
}

/// Whether a page on a host with some path segments is one of the repositories
/// of a project on GitHub.
pub open spec fn on_github(host: Seq<char>, path: Seq<Seq<char>>, entry: AuthorityView) -> bool {
    &&& host == seq!['g', 'i', 't', 'h', 'u', 'b', '.', 'c', 'o', 'm']
    &&& path.len() >= 2
    &&& exists|k: int|
        0 <= k < entry.github_repos.len() && (#[trigger] entry.github_repos[k]).0 == lowered(
            path[0],
        ) && entry.github_repos[k].1 == lowered(path[1])
}

/// An address belongs to a project exactly if its host, in lower case and
/// without `www.`, lies in one of the domains of the project, or it is a page
/// of one of its repositories.
pub proof fn law_official(parts: UrlPartsView, entry: AuthorityView)
    ensures
        official_of(parts, entry) <==> (exists|k: int|
            0 <= k < entry.domains.len() && in_domain(
                lowered(without_www(parts.host_or_empty())),
                #[trigger] entry.domains[k],
            )) || on_github(
            lowered(without_www(parts.host_or_empty())),
            parts.segments_or_empty(),
            entry,
        ),
{
    let host = lowered(without_www(parts.host_or_empty()));
    let path = parts.segments_or_empty();
    reveal_strlit("github.com");
    assert("github.com"@ =~= seq!['g', 'i', 't', 'h', 'u', 'b', '.', 'c', 'o', 'm']);
    if path.len() >= 2 {
        let wanted = (lowered(path[0]), lowered(path[1]));
        if entry.github_repos.contains(wanted) {
            let k = choose|k: int|
                0 <= k < entry.github_repos.len() && entry.github_repos[k] == wanted;
            assert(entry.github_repos[k].0 == lowered(path[0]));
        }
        if on_github(host, path, entry) {
            let k = choose|k: int|
                0 <= k < entry.github_repos.len() && (#[trigger] entry.github_repos[k]).0
                    == lowered(path[0]) && entry.github_repos[k].1 == lowered(path[1]);
            assert(entry.github_repos[k] == wanted);
        }
    }
}

/// An address that an entry lists a domain of, or below it, is official, in any
/// case and with or without `www.`.
pub proof fn law_own_domain_is_official(
    parts: UrlPartsView,
    entry: AuthorityView,
    k: int,
    label: Seq<char>,
)
    requires
        0 <= k < entry.domains.len(),
        parts.host is Some,
        lowered(without_www(parts.host->0)) == entry.domains[k] || lowered(
            without_www(parts.host->0),
        ) == label + seq!['.'] + entry.domains[k],
    ensures
        official_of(parts, entry),
{
    let host = lowered(without_www(parts.host->0));
    law_official(parts, entry);
    law_in_domain(host, entry.domains[k]);
    if host != entry.domains[k] {
        assert(below(host, label, entry.domains[k]));
    }
}

/// A path that starts with a slash has as segments what stands between its
/// other slashes, and any other path has none.
pub proof fn law_path_segments(path: Seq<char>)
    ensures
        path_segments_of(seq!['/'] + path) == Some(pieces(path, Separator::Char('/'))),
        path.len() == 0 ==> path_segments_of(path) is None,
        path.len() > 0 && code(path[0]) != 47 ==> path_segments_of(path) is None,
{
    assert((seq!['/'] + path).drop_first() =~= path);
}

/// The parts of an address are its host and the segments of its path; what does
/// not parse has no parts and belongs to no project.
pub proof fn law_url_parts(raw: Seq<char>, entry: AuthorityView)
    ensures
        parsed_url(raw) is None ==> url_parts_of(raw) is None && !official_url(raw, entry),
        parsed_url(raw) is Some ==> {
            &&& url_parts_of(raw) is Some
            &&& url_parts_of(raw)->0.host == (parsed_url(raw)->0).0
            &&& url_parts_of(raw)->0.segments == path_segments_of((parsed_url(raw)->0).1)
            &&& official_url(raw, entry) == official_of(url_parts_of(raw)->0, entry)
        },
        parts_of(parsed_url(raw)) == url_parts_of(raw),
        parts_of(None) is None,
{
}

/// Whether an entry has these names, these domains and this repository.
pub open spec fn lists(
    entry: AuthorityView,
    aliases: Seq<Seq<char>>,
    domains: Seq<Seq<char>>,
    repos: Seq<(Seq<char>, Seq<char>)>,
) -> bool {
    entry.aliases == aliases && entry.domains == domains && entry.github_repos == repos
}

/// Twelve projects are known, each by its names, with its own domains and, but
/// for one, its repository.
pub proof fn law_known_projects()
    ensures
        authority_table().len() == 12,
        lists(
            authority_table()[0],
            seq!["react"@],
            seq!["react.dev"@],
            seq![("facebook"@, "react"@)],
        ),
        lists(
            authority_table()[1],
            seq!["next.js"@, "nextjs"@, "next js"@],
            seq!["nextjs.org"@],
            seq![("vercel"@, "next.js"@)],
        ),
        lists(
            authority_table()[2],
            seq!["python"@],
            seq!["python.org"@],
            seq![("python"@, "cpython"@)],
        ),
        lists(
            authority_table()[3],
            seq!["rust"@],
            seq!["rust-lang.org"@],
            seq![("rust-lang"@, "rust"@)],
        ),
        lists(
            authority_table()[4],
            seq!["node.js"@, "nodejs"@, "node js"@],
            seq!["nodejs.org"@],
            seq![("nodejs"@, "node"@)],
        ),
        lists(
            authority_table()[5],
            seq!["vue"@, "vue.js"@, "vuejs"@],
            seq!["vuejs.org"@],
            seq![("vuejs"@, "core"@)],
        ),
        lists(
            authority_table()[6],
            seq!["angular"@],
            seq!["angular.dev"@, "angular.io"@],
            seq![("angular"@, "angular"@)],
        ),
        lists(
            authority_table()[7],
            seq!["fastapi"@, "fast api"@],
            seq!["fastapi.tiangolo.com"@],
            seq![("fastapi"@, "fastapi"@)],
        ),
        lists(
            authority_table()[8],
            seq!["django"@],
            seq!["djangoproject.com"@],
            seq![("django"@, "django"@)],
        ),
        lists(
            authority_table()[9],
            seq!["laravel"@],
            seq!["laravel.com"@],
            seq![("laravel"@, "framework"@)],
        ),
        lists(
            authority_table()[10],
            seq!["postgresql"@, "postgres"@],
            seq!["postgresql.org"@],
            seq![("postgres"@, "postgres"@)],
        ),
        lists(authority_table()[11], seq!["openai"@], seq!["openai.com"@], Seq::empty()),
{
}

}
