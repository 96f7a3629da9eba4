# crw-search

Reranks web search results for technical queries. A query such as "React 19
documentation" names a project and a version; results that speak of that version
come first, then results that the project itself published, then those that hold
more of the search terms, then newer ones, then those with a higher upstream
score. Results that are equal in all of this keep their order.

The library under `src/` is verified with Verus:

- `text`: lower case, tokens, phrases
- `version`: version numbers, where they stand, how they compare
- `authority`: the known projects and their addresses
- `weburl`: host and path of an address, read by the `url` crate
- `intent`: what a query asks for
- `evidence`: what a single result says
- `client`: a search result; its score is a binary64 number given by its bits
- `ranking`: keys and their order, and a stable sort by them
- `technical`: the key of a result, and reranking
- `laws`: what holds of all of this together

Taken on trust are `str::to_ascii_lowercase` and `String::push` of the standard
library and, in `weburl`, what `url::Url::parse` makes of a text.

`app/` ranks results whose scores are floating-point numbers.
