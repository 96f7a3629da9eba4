//! The projects that are known by name, and which addresses are their own.

use vstd::prelude::*;

use crate::text::{contains_phrase, has_phrase, lowered, normalize, same_text, words};
use crate::weburl::{parse_url, url_parts_of, UrlParts, UrlPartsView};

verus! {

/// A project and where it publishes.
#[derive(Clone, Copy, Debug)]
pub struct Authority {
    /// The names that a query may give it.
    pub aliases: &'static [&'static str],
    /// The domains that are its own, with all of their subdomains.
    pub domains: &'static [&'static str],
    /// Its repositories on GitHub, each by owner and name.
    pub github_repos: &'static [(&'static str, &'static str)],
}

/// The text of an [`Authority`].
#[verifier::ext_equal]
pub struct AuthorityView {
    pub aliases: Seq<Seq<char>>,
    pub domains: Seq<Seq<char>>,
    pub github_repos: Seq<(Seq<char>, Seq<char>)>,
}

/// The text of each pair of a sequence.
pub open spec fn pairs(repos: Seq<(&str, &str)>) -> Seq<(Seq<char>, Seq<char>)> {
    repos.map_values(|repo: (&str, &str)| (repo.0@, repo.1@))
}

impl View for Authority {
    type V = AuthorityView;

    open spec fn view(&self) -> AuthorityView {
        AuthorityView {
            aliases: words(self.aliases@),
            domains: words(self.domains@),
            github_repos: pairs(self.github_repos@),
        }
    }
}

/// The text of an optional entry.
pub open spec fn entry_text(entry: Option<&Authority>) -> Option<AuthorityView> {
    match entry {
        Some(entry) => Some(entry@),
        None => None,
    }
}

/// The text of each entry of a table.
pub open spec fn entry_texts(table: Seq<Authority>) -> Seq<AuthorityView> {
    table.map_values(|entry: Authority| entry@)
}

/// The projects that are known by name.
pub open spec fn authority_table() -> Seq<AuthorityView> {
    seq![
        AuthorityView {
            aliases: seq!["react"@],
            domains: seq!["react.dev"@],
            github_repos: seq![("facebook"@, "react"@)],
        },
        AuthorityView {
            aliases: seq!["next.js"@, "nextjs"@, "next js"@],
            domains: seq!["nextjs.org"@],
            github_repos: seq![("vercel"@, "next.js"@)],
        },
        AuthorityView {
            aliases: seq!["python"@],
            domains: seq!["python.org"@],
            github_repos: seq![("python"@, "cpython"@)],
        },
        AuthorityView {
            aliases: seq!["rust"@],
            domains: seq!["rust-lang.org"@],
            github_repos: seq![("rust-lang"@, "rust"@)],
        },
        AuthorityView {
            aliases: seq!["node.js"@, "nodejs"@, "node js"@],
            domains: seq!["nodejs.org"@],
            github_repos: seq![("nodejs"@, "node"@)],
        },
        AuthorityView {
            aliases: seq!["vue"@, "vue.js"@, "vuejs"@],
            domains: seq!["vuejs.org"@],
            github_repos: seq![("vuejs"@, "core"@)],
        },
        AuthorityView {
            aliases: seq!["angular"@],
            domains: seq!["angular.dev"@, "angular.io"@],
            github_repos: seq![("angular"@, "angular"@)],
        },
        AuthorityView {
            aliases: seq!["fastapi"@, "fast api"@],
            domains: seq!["fastapi.tiangolo.com"@],
            github_repos: seq![("fastapi"@, "fastapi"@)],
        },
        AuthorityView {
            aliases: seq!["django"@],
            domains: seq!["djangoproject.com"@],
            github_repos: seq![("django"@, "django"@)],
        },
        AuthorityView {
            aliases: seq!["laravel"@],
            domains: seq!["laravel.com"@],
            github_repos: seq![("laravel"@, "framework"@)],
        },
        AuthorityView {
            aliases: seq!["postgresql"@, "postgres"@],
            domains: seq!["postgresql.org"@],
            github_repos: seq![("postgres"@, "postgres"@)],
        },
        AuthorityView {
            aliases: seq!["openai"@],
            domains: seq!["openai.com"@],
            github_repos: Seq::empty(),
        },
    ]
}

/// The length in bytes of the longest alias of an entry that a text names, or
/// nothing where it names none of them.
pub open spec fn longest_alias(text: Seq<char>, aliases: Seq<Seq<char>>) -> Option<nat>
    decreases aliases.len(),
{
    if aliases.len() == 0 {
        None
    } else {
        let before = longest_alias(text, aliases.drop_last());
        let length = vstd::utf8::encode_utf8(aliases.last()).len();
        if has_phrase(text, aliases.last()) && (before is None || before->0 <= length) {
            Some(length)
        } else {
            before
        }
    }
}

/// The index of the entry that a text names by the longest alias; of several
/// such entries the last one.
pub open spec fn named_entry(text: Seq<char>, table: Seq<AuthorityView>) -> Option<int>
    decreases table.len(),
{
    if table.len() == 0 {
        None
    } else {
        let before = named_entry(text, table.drop_last());
        let length = longest_alias(text, table.last().aliases);
        if length is Some && (before is None || longest_alias(text, table[before->0].aliases)->0
            <= length->0) {
            Some(table.len() - 1)
        } else {
            before
        }
    }
}

/// The project that a text names, if it names one that is known.
pub open spec fn named_authority(text: Seq<char>) -> Option<AuthorityView> {
    match named_entry(text, authority_table()) {
        Some(index) => Some(authority_table()[index]),
        None => None,
    }
}

/// A host name without any number of `www.` before it.
pub open spec fn without_www(host: Seq<char>) -> Seq<char>
    decreases host.len(),
{
    if host.len() >= 4 && host.take(4) == seq!['w', 'w', 'w', '.'] {
        without_www(host.skip(4))
    } else {
        host
    }
}

/// Whether a host is a domain or lies below it.
pub open spec fn in_domain(host: Seq<char>, domain: Seq<char>) -> bool {
    host == domain || (seq!['.'] + domain).is_suffix_of(host)
}

/// Whether a host and a path belong to a project: by one of its domains, or as
/// one of its repositories on GitHub.
pub open spec fn official_of(parts: UrlPartsView, entry: AuthorityView) -> bool {
    let host = lowered(without_www(parts.host_or_empty()));
    let path = parts.segments_or_empty();
    ||| exists|i: int| 0 <= i < entry.domains.len() && in_domain(host, #[trigger] entry.domains[i])
    ||| {
        &&& host == "github.com"@
        &&& path.len() >= 2
        &&& entry.github_repos.contains((lowered(path[0]), lowered(path[1])))
    }
}

/// The projects that are known by name.
pub fn authorities() -> (table: &'static [Authority])
    ensures
        entry_texts(table@) == authority_table(),
{
    let table: &'static [Authority] = &[
        Authority {
            aliases: &["react"],
            domains: &["react.dev"],
            github_repos: &[("facebook", "react")],
        },
        Authority {
            aliases: &["next.js", "nextjs", "next js"],
            domains: &["nextjs.org"],
            github_repos: &[("vercel", "next.js")],
        },
        Authority {
            aliases: &["python"],
            domains: &["python.org"],
            github_repos: &[("python", "cpython")],
        },
        Authority {
            aliases: &["rust"],
            domains: &["rust-lang.org"],
            github_repos: &[("rust-lang", "rust")],
        },
        Authority {
            aliases: &["node.js", "nodejs", "node js"],
            domains: &["nodejs.org"],
            github_repos: &[("nodejs", "node")],
        },
        Authority {
            aliases: &["vue", "vue.js", "vuejs"],
            domains: &["vuejs.org"],
            github_repos: &[("vuejs", "core")],
        },
        Authority {
            aliases: &["angular"],
            domains: &["angular.dev", "angular.io"],
            github_repos: &[("angular", "angular")],
        },
        Authority {
            aliases: &["fastapi", "fast api"],
            domains: &["fastapi.tiangolo.com"],
            github_repos: &[("fastapi", "fastapi")],
        },
        Authority {
            aliases: &["django"],
            domains: &["djangoproject.com"],
            github_repos: &[("django", "django")],
        },
        Authority {
            aliases: &["laravel"],
            domains: &["laravel.com"],
            github_repos: &[("laravel", "framework")],
        },
        Authority {
            aliases: &["postgresql", "postgres"],
            domains: &["postgresql.org"],
            github_repos: &[("postgres", "postgres")],
        },
        Authority { aliases: &["openai"], domains: &["openai.com"], github_repos: &[] },
    ];
    proof {
        let all = authority_table();
        assert forall|i: int| 0 <= i < 12 implies #[trigger] entry_texts(table@)[i] == all[i] by {
            assert(entry_texts(table@)[i].aliases =~= all[i].aliases);
            assert(entry_texts(table@)[i].domains =~= all[i].domains);
            assert(entry_texts(table@)[i].github_repos =~= all[i].github_repos);
        }
        assert(entry_texts(table@) =~= all);
    }
    table
}

/// The length in bytes of the longest of some aliases that a text names.
fn longest_named_alias(text: &str, aliases: &[&str]) -> (res: Option<usize>)
    ensures
        res is Some <==> longest_alias(text@, words(aliases@)) is Some,
        res is Some ==> res->0 == longest_alias(text@, words(aliases@))->0,
{
    let ghost all = words(aliases@);
    let mut best: Option<usize> = None;
    let mut i: usize = 0;
    while i < aliases.len()
        invariant
            i <= aliases@.len(),
            all == words(aliases@),
            best is Some <==> longest_alias(text@, all.take(i as int)) is Some,
            best is Some ==> best->0 == longest_alias(text@, all.take(i as int))->0,
        decreases aliases@.len() - i,
    {
        assert(all.take(i + 1).drop_last() =~= all.take(i as int));
        assert(all.take(i + 1).last() == aliases@[i as int]@);
        if contains_phrase(text, aliases[i]) {
            let length: usize = aliases[i].as_bytes().len();
            let longer = match best {
                Some(so_far) => so_far <= length,
                None => true,
            };
            if longer {
                best = Some(length);
            }
        }
        i = i + 1;
    }
    assert(all.take(all.len() as int) =~= all);
    best
}

/// The project that a text names, if it names one that is known.
pub fn find_authority(text: &str) -> (res: Option<&'static Authority>)
    ensures
        entry_text(res) == named_authority(text@),
{
    let table = authorities();
    let ghost all = authority_table();
    let mut best: Option<usize> = None;
    let mut best_length: usize = 0;
    let mut i: usize = 0;
    while i < table.len()
        invariant
            i <= table@.len(),
            entry_texts(table@) == all,
            best is Some <==> named_entry(text@, all.take(i as int)) is Some,
            best is Some ==> {
                &&& best->0 < i
                &&& best->0 == named_entry(text@, all.take(i as int))->0
                &&& longest_alias(text@, all[best->0 as int].aliases) == Some(best_length as nat)
            },
        decreases table@.len() - i,
    {
        proof {
            assert(all.take(i + 1).drop_last() =~= all.take(i as int));
            assert(all.take(i + 1).last() == table@[i as int]@);
            assert(all[i as int] == table@[i as int]@);
        }
        match longest_named_alias(text, table[i].aliases) {
            Some(length) => {
                if best.is_none() || best_length <= length {
                    best = Some(i);
                    best_length = length;
                }
            },
            None => {},
        }
        i = i + 1;
    }
    assert(all.take(all.len() as int) =~= all);
    match best {
        Some(index) => Some(&table[index]),
        None => None,
    }
}

/// A host name without any number of `www.` before it.
fn strip_www(host: &str) -> (res: &str)
    ensures
        res@ == without_www(host@),
{
    let mut rest = host;
    let mut length: usize = rest.unicode_len();
    while length >= 4 && rest.get_char(0) == 'w' && rest.get_char(1) == 'w' && rest.get_char(2)
        == 'w' && rest.get_char(3) == '.'
        invariant
            length == rest@.len(),
            without_www(rest@) == without_www(host@),
        decreases length,
    {
        proof {
            assert(rest@.take(4) =~= seq!['w', 'w', 'w', '.']);
            assert(rest@.subrange(4, length as int) =~= rest@.skip(4));
        }
        rest = rest.substring_char(4, length);
        length = length - 4;
    }
    proof {
        if length >= 4 {
            assert(rest@.take(4)[0] == rest@[0]);
            assert(rest@.take(4)[1] == rest@[1]);
            assert(rest@.take(4)[2] == rest@[2]);
            assert(rest@.take(4)[3] == rest@[3]);
        }
    }
    rest
}

/// Whether a host is a domain or lies below it.
fn host_in_domain(host: &str, domain: &str) -> (res: bool)
    ensures
        res == in_domain(host@, domain@),
{
    if same_text(host, domain) {
        return true;
    }
    let h: usize = host.unicode_len();
    let d: usize = domain.unicode_len();
    if h <= d {
        return false;
    }
    let ghost suffix = seq!['.'] + domain@;
    let ghost tail = host@.subrange(h - d - 1, h as int);
    proof {
        assert(tail[0] == host@[h - d - 1]);
        assert(tail.drop_first() =~= host@.subrange(h - d, h as int));
        assert(suffix.drop_first() =~= domain@);
        assert(suffix[0] == '.');
    }
    let below = host.get_char(h - d - 1) == '.' && same_text(host.substring_char(h - d, h), domain);
    proof {
        if below {
            assert(tail =~= suffix);
        }
    }
    below
}

/// Whether a parsed address belongs to a project.
pub fn is_official_parts(parts: &UrlParts, entry: &Authority) -> (res: bool)
    ensures
        res == official_of(parts@, entry@),
{
    let named = match &parts.host {
        Some(host) => host.as_str(),
        None => "",
    };
    proof {
        reveal_strlit("");
        assert(named@ =~= parts@.host_or_empty());
    }
    let host = normalize(strip_www(named));
    let mut i: usize = 0;
    while i < entry.domains.len()
        invariant
            i <= entry.domains@.len(),
            host@ == lowered(without_www(parts@.host_or_empty())),
            forall|j: int| 0 <= j < i ==> !in_domain(host@, #[trigger] entry@.domains[j]),
        decreases entry.domains@.len() - i,
    {
        assert(entry@.domains[i as int] == entry.domains@[i as int]@);
        if host_in_domain(host.as_str(), entry.domains[i]) {
            return true;
        }
        i = i + 1;
    }
    if !same_text(host.as_str(), "github.com") {
        return false;
    }
    match &parts.segments {
        Some(segments) => {
            if segments.len() < 2 {
                return false;
            }
            let owner = normalize(segments[0].as_str());
            let name = normalize(segments[1].as_str());
            let ghost wanted = (owner@, name@);
            let ghost path = parts@.segments_or_empty();
            assert(wanted == (lowered(path[0]), lowered(path[1])));
            let mut k: usize = 0;
            while k < entry.github_repos.len()
                invariant
                    k <= entry.github_repos@.len(),
                    wanted == (owner@, name@),
                    host@ == lowered(without_www(parts@.host_or_empty())),
                    host@ == "github.com"@,
                    path == parts@.segments_or_empty(),
                    path.len() >= 2,
                    wanted == (lowered(path[0]), lowered(path[1])),
                    forall|j: int| 0 <= j < k ==> #[trigger] entry@.github_repos[j] != wanted,
                decreases entry.github_repos@.len() - k,
            {
                let repo = entry.github_repos[k];
                assert(entry@.github_repos[k as int] == (repo.0@, repo.1@));
                if same_text(owner.as_str(), repo.0) && same_text(name.as_str(), repo.1) {
                    assert(entry@.github_repos.contains(wanted));
                    return true;
                }
                k = k + 1;
            }
            assert(!entry@.github_repos.contains(wanted));
            false
        },
        None => false,
    }
}

/// Whether the text of an address parses, and the address belongs to a
/// project.
pub open spec fn official_url(raw: Seq<char>, entry: AuthorityView) -> bool {
    match url_parts_of(raw) {
        Some(parts) => official_of(parts, entry),
        None => false,
    }
}

/// Whether an address belongs to a project.
pub fn is_official(raw_url: &str, entry: &Authority) -> (res: bool)
    ensures
        res == official_url(raw_url@, entry@),
{
    match parse_url(raw_url) {
        Some(parts) => is_official_parts(&parts, entry),
        None => false,
    }
}

}
