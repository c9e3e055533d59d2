//! Where media comes from: files and HTTP resources, the headers that go out
//! with requests, and the keys by which sessions are found again.

use vstd::prelude::*;
use crate::errors;
use crate::errors::MediaParserError;
use crate::stream;
use crate::text;
use crate::text::{eq_ignore_ascii_case, joined, same_text, text_at_most, to_ascii_lowercase};
use crate::time::Duration;

verus! {

/// The seconds that a session on a remote source lives.
pub const REMOTE_SESSION_SECS: u64 = 300;

/// The seconds that an unused session on a local source lives.
pub const LOCAL_SESSION_SECS: u64 = 60;

/// The seconds between two searches for expired sessions.
pub const SESSION_REAPER_SECS: u64 = 1;

// --------------------
// URLs
// --------------------

/// What `Url::parse` makes of a text: the scheme of the URL, or the text of
/// the error.
pub uninterp spec fn parsed_scheme(text: Seq<char>) -> Result<Seq<char>, Seq<char>>;

/// The origin (scheme, host and port) of the URL that a text is, where it has
/// one that other URLs can share.
pub uninterp spec fn parsed_origin(text: Seq<char>) -> Option<(Seq<char>, Seq<char>, u16)>;

/// The scheme of a parsed URL, or the text of the error.
pub open spec fn scheme_view(r: Result<String, String>) -> Result<Seq<char>, Seq<char>> {
    match r {
        Ok(scheme) => Ok(scheme@),
        Err(e) => Err(e@),
    }
}

/// `Url::parse` and `Url::scheme`: the scheme of the URL that a text is, or
/// the text of the error.
#[verifier::external_body]
fn url_scheme(text: &str) -> (r: Result<String, String>)
    ensures
        scheme_view(r) == parsed_scheme(text@),
{
    match url::Url::parse(text) {
        Ok(url) => Ok(url.scheme().to_owned()),
        Err(e) => Err(e.to_string()),
    }
}

/// Whether a scheme is that of HTTP, plain or encrypted.
pub open spec fn is_http(scheme: Seq<char>) -> bool {
    scheme == "http"@ || scheme == "https"@
}

fn http_scheme(scheme: &str) -> (r: bool)
    ensures
        r == is_http(scheme@),
{
    same_text(scheme, "http") || same_text(scheme, "https")
}

/// The origin of a URL.
#[derive(Debug, Clone)]
pub struct UrlOrigin {
    pub scheme: String,
    pub host: String,
    pub port: u16,
}

/// What an origin is.
pub open spec fn origin_view(o: Option<UrlOrigin>) -> Option<(Seq<char>, Seq<char>, u16)> {
    match o {
        Some(o) => Some((o.scheme@, o.host@, o.port)),
        None => None,
    }
}

/// `Url::origin` of the URL that a text is, which must be one of HTTP: scheme,
/// host and port of a tuple origin. An opaque origin is shared with nothing
/// and comes out as nothing.
#[verifier::external_body]
fn url_origin(text: &str) -> (r: Option<UrlOrigin>)
    requires
        parsed_scheme(text@) is Ok,
        is_http(parsed_scheme(text@)->Ok_0),
    ensures
        origin_view(r) == parsed_origin(text@),
{
    match url::Url::parse(text).map(|url| url.origin()) {
        Ok(url::Origin::Tuple(scheme, host, port)) => Some(
            UrlOrigin { scheme, host: host.to_string(), port },
        ),
        Ok(url::Origin::Opaque(_)) => None,
        Err(_) => None,
    }
}

/// Whether two origins are the same. Nothing is the same as no origin.
pub open spec fn same_origin(
    a: Option<(Seq<char>, Seq<char>, u16)>,
    b: Option<(Seq<char>, Seq<char>, u16)>,
) -> bool {
    a is Some && a == b
}

fn are_same_origin(a: &Option<UrlOrigin>, b: &Option<UrlOrigin>) -> (r: bool)
    ensures
        r == same_origin(origin_view(*a), origin_view(*b)),
{
    match (a, b) {
        (Some(x), Some(y)) => x.port == y.port && same_text(x.scheme.as_str(), y.scheme.as_str())
            && same_text(x.host.as_str(), y.host.as_str()),
        _ => false,
    }
}

/// What a source is: a path, or an HTTP resource with an origin.
#[derive(Debug, Clone)]
pub enum Target {
    Local,
    Remote(Option<UrlOrigin>),
}

/// What a target is.
pub enum TargetView {
    Local,
    Remote(Option<(Seq<char>, Seq<char>, u16)>),
}

impl View for Target {
    type V = TargetView;

    open spec fn view(&self) -> TargetView {
        match self {
            Target::Local => TargetView::Local,
            Target::Remote(o) => TargetView::Remote(origin_view(*o)),
        }
    }
}

/// What a source is: an HTTP resource where it parses as a URL of HTTP, and
/// else a path.
pub open spec fn target(source: Seq<char>) -> TargetView {
    match parsed_scheme(source) {
        Ok(scheme) => if is_http(scheme) {
            TargetView::Remote(parsed_origin(source))
        } else {
            TargetView::Local
        },
        Err(_) => TargetView::Local,
    }
}

/// Tells what a source is.
pub fn target_of(source: &str) -> (r: Target)
    ensures
        r@ == target(source@),
{
    match url_scheme(source) {
        Ok(scheme) => {
            if http_scheme(scheme.as_str()) {
                Target::Remote(url_origin(source))
            } else {
                Target::Local
            }
        },
        Err(_) => Target::Local,
    }
}

/// Whether a source is an HTTP resource.
pub fn is_http_source(source: &str) -> (r: bool)
    ensures
        r == (target(source@) is Remote),
{
    match target_of(source) {
        Target::Remote(_) => true,
        Target::Local => false,
    }
}

// --------------------
// Default headers
// --------------------

/// Why a scheme cannot be that of an origin for default headers.
pub open spec fn origin_error(scheme: Result<Seq<char>, Seq<char>>) -> Option<Seq<char>> {
    match scheme {
        Err(e) => Some("Invalid default headers origin: "@ + e),
        Ok(scheme) => if is_http(scheme) {
            None
        } else {
            Some("Default headers origins must use HTTP(S)"@)
        },
    }
}

/// Checks the scheme of an origin for default headers.
pub fn check_origin_scheme(scheme: &Result<String, String>) -> (r: Result<(), MediaParserError>)
    ensures
        match origin_error(scheme_view(*scheme)) {
            Some(reason) => r matches Err(e) && e@ == errors::ErrorView::Other(reason),
            None => r is Ok,
        },
{
    match scheme {
        Err(e) => Err(
            MediaParserError::Other(joined("Invalid default headers origin: ", e.as_str())),
        ),
        Ok(scheme) => {
            if http_scheme(scheme.as_str()) {
                Ok(())
            } else {
                Err(MediaParserError::other("Default headers origins must use HTTP(S)"))
            }
        },
    }
}

/// The first error among the first `n` origins.
pub open spec fn origins_error(origins: Seq<Seq<char>>, n: int) -> Option<Seq<char>>
    decreases n,
{
    if n <= 0 {
        None
    } else {
        match origins_error(origins, n - 1) {
            Some(e) => Some(e),
            None => origin_error(parsed_scheme(origins[n - 1])),
        }
    }
}

proof fn lemma_origins_error(origins: Seq<Seq<char>>, k: int, n: int)
    requires
        0 <= k <= n,
        origins_error(origins, k) is Some,
    ensures
        origins_error(origins, n) == origins_error(origins, k),
    decreases n,
{
    if k < n {
        lemma_origins_error(origins, k, n - 1);
    }
}

/// What a list of texts is.
pub open spec fn texts(list: Seq<String>) -> Seq<Seq<char>> {
    Seq::new(list.len(), |i: int| list[i]@)
}

/// Headers that go out with every request to a remote source, or with those to
/// some origins only.
#[derive(Debug)]
pub struct DefaultHeaders {
    headers: Vec<(String, String)>,
    origins: Option<Vec<Option<UrlOrigin>>>,
}

/// The headers of a request, and whether it may not leave its origin.
#[derive(Debug)]
pub struct MergedHeaders {
    pub headers: Option<Vec<(String, String)>>,
    /// Whether headers meant for some origins only were added.
    pub force_same_origin: bool,
}

/// What optional headers are.
pub open spec fn given_view(headers: Option<Vec<(String, String)>>) -> Option<
    Seq<(Seq<char>, Seq<char>)>,
> {
    match headers {
        Some(list) => Some(stream::headers_view(list@)),
        None => None,
    }
}

impl View for MergedHeaders {
    type V = (Option<Seq<(Seq<char>, Seq<char>)>>, bool);

    open spec fn view(&self) -> (Option<Seq<(Seq<char>, Seq<char>)>>, bool) {
        (given_view(self.headers), self.force_same_origin)
    }
}

impl Default for MergedHeaders {
    fn default() -> (r: Self)
        ensures
            r@ == (None::<Seq<(Seq<char>, Seq<char>)>>, false),
    {
        MergedHeaders { headers: None, force_same_origin: false }
    }
}

/// Whether a header with a name is in a list, whatever the case of the letters.
pub open spec fn has_header(list: Seq<(Seq<char>, Seq<char>)>, name: Seq<char>) -> bool {
    exists|i: int|
        0 <= i < list.len() && text::ascii_lowercase((#[trigger] list[i]).0)
            == text::ascii_lowercase(name)
}

/// Whether a header with a name is in a list.
pub fn contains_header(list: &Vec<(String, String)>, name: &str) -> (r: bool)
    ensures
        r == has_header(stream::headers_view(list@), name@),
{
    let ghost all = stream::headers_view(list@);
    let mut i: usize = 0;
    while i < list.len()
        invariant
            i <= list@.len(),
            all == stream::headers_view(list@),
            forall|k: int|
                0 <= k < i ==> text::ascii_lowercase((#[trigger] all[k]).0)
                    != text::ascii_lowercase(name@),
        decreases list@.len() - i,
    {
        assert(all[i as int].0 == list@[i as int].0@);
        if eq_ignore_ascii_case(list[i].0.as_str(), name) {
            return true;
        }
        i = i + 1;
    }
    false
}

/// The given headers, and behind them those of the first `n` defaults whose
/// name is not there yet.
pub open spec fn with_defaults(
    given: Seq<(Seq<char>, Seq<char>)>,
    defaults: Seq<(Seq<char>, Seq<char>)>,
    n: int,
) -> Seq<(Seq<char>, Seq<char>)>
    decreases n,
{
    if n <= 0 {
        given
    } else {
        let before = with_defaults(given, defaults, n - 1);
        if has_header(before, defaults[n - 1].0) {
            before
        } else {
            before.push(defaults[n - 1])
        }
    }
}

/// Whether an origin is among those in a list.
pub open spec fn is_listed(
    list: Seq<Option<(Seq<char>, Seq<char>, u16)>>,
    origin: Option<(Seq<char>, Seq<char>, u16)>,
) -> bool {
    exists|i: int| 0 <= i < list.len() && same_origin(#[trigger] list[i], origin)
}

/// Whether default headers apply to a target.
pub open spec fn defaults_apply(
    defaults: Seq<(Seq<char>, Seq<char>)>,
    origins: Option<Seq<Option<(Seq<char>, Seq<char>, u16)>>>,
    origin: Option<(Seq<char>, Seq<char>, u16)>,
) -> bool {
    defaults.len() > 0 && match origins {
        None => true,
        Some(list) => is_listed(list, origin),
    }
}

/// The headers of a request to a target.
pub open spec fn merged(
    defaults: Seq<(Seq<char>, Seq<char>)>,
    origins: Option<Seq<Option<(Seq<char>, Seq<char>, u16)>>>,
    target: TargetView,
    given: Option<Seq<(Seq<char>, Seq<char>)>>,
) -> Result<(Option<Seq<(Seq<char>, Seq<char>)>>, bool), Seq<char>> {
    match target {
        TargetView::Local => Ok((None, false)),
        TargetView::Remote(origin) => if !defaults_apply(defaults, origins, origin) {
            Ok((given, false))
        } else {
            let list = match given {
                Some(list) => list,
                None => Seq::empty(),
            };
            if has_header(list, "host"@) {
                Err("Per-call Host header is not allowed when default headers apply"@)
            } else {
                let all = with_defaults(list, defaults, defaults.len() as int);
                Ok((Some(all), origins is Some && all.len() > list.len()))
            }
        },
    }
}

/// What merging gives.
pub open spec fn merged_view(r: Result<MergedHeaders, MediaParserError>) -> Result<
    (Option<Seq<(Seq<char>, Seq<char>)>>, bool),
    errors::ErrorView,
> {
    match r {
        Ok(m) => Ok(m@),
        Err(e) => Err(e@),
    }
}

/// A result whose error is a text.
pub open spec fn with_reason<T>(r: Result<T, Seq<char>>) -> Result<T, errors::ErrorView> {
    match r {
        Ok(v) => Ok(v),
        Err(reason) => Err(errors::ErrorView::Other(reason)),
    }
}

impl DefaultHeaders {
    /// The headers.
    pub closed spec fn headers(self) -> Seq<(Seq<char>, Seq<char>)> {
        stream::headers_view(self.headers@)
    }

    /// The origins that the headers are for, where they are not for all.
    pub closed spec fn origins(self) -> Option<Seq<Option<(Seq<char>, Seq<char>, u16)>>> {
        match self.origins {
            Some(list) => Some(origins_view(list@)),
            None => None,
        }
    }

    /// Default headers for all origins, or for those of some URLs, which must
    /// be of HTTP.
    pub fn new(headers: Vec<(String, String)>, origins: Option<Vec<String>>) -> (r: Result<
        Self,
        MediaParserError,
    >)
        ensures
            match origins {
                None => r matches Ok(d) && d.headers() == stream::headers_view(headers@)
                    && d.origins() is None,
                Some(list) => match origins_error(texts(list@), list@.len() as int) {
                    Some(reason) => r matches Err(e) && e@ == errors::ErrorView::Other(reason),
                    None => r matches Ok(d) && d.headers() == stream::headers_view(headers@)
                        && d.origins() == Some(
                        Seq::new(list@.len(), |i: int| parsed_origin(texts(list@)[i])),
                    ),
                },
            },
    {
        let list: Vec<String> = match origins {
            None => return Ok(DefaultHeaders { headers, origins: None }),
            Some(list) => list,
        };
        let ghost all = texts(list@);
        let ghost wanted = Seq::new(list@.len(), |i: int| parsed_origin(texts(list@)[i]));
        let mut out: Vec<Option<UrlOrigin>> = Vec::new();
        let mut i: usize = 0;
        assert(origins_view(out@) =~= wanted.take(0));
        while i < list.len()
            invariant
                i <= list@.len(),
                origins == Some(list),
                all == texts(list@),
                wanted == Seq::new(list@.len(), |i: int| parsed_origin(texts(list@)[i])),
                origins_error(all, i as int) is None,
                origins_view(out@) == wanted.take(i as int),
            decreases list@.len() - i,
        {
            let scheme: Result<String, String> = url_scheme(list[i].as_str());
            if let Err(e) = check_origin_scheme(&scheme) {
                proof {
                    lemma_origins_error(all, i + 1, all.len() as int);
                }
                return Err(e);
            }
            let ghost before = origins_view(out@);
            let origin: Option<UrlOrigin> = url_origin(list[i].as_str());
            let ghost added = origin_view(origin);
            out.push(origin);
            proof {
                assert(origins_view(out@) =~= before.push(added));
                assert(wanted.take(i + 1) =~= wanted.take(i as int).push(wanted[i as int]));
            }
            i = i + 1;
        }
        assert(wanted.take(i as int) =~= wanted);
        Ok(DefaultHeaders { headers, origins: Some(out) })
    }

    /// Whether the headers apply to an origin.
    fn apply_to(&self, origin: &Option<UrlOrigin>) -> (r: bool)
        ensures
            r == defaults_apply(self.headers(), self.origins(), origin_view(*origin)),
    {
        if self.headers.len() == 0 {
            return false;
        }
        match &self.origins {
            None => true,
            Some(list) => {
                let ghost all = origins_view(list@);
                let mut i: usize = 0;
                while i < list.len()
                    invariant
                        i <= list@.len(),
                        all == origins_view(list@),
                        self.origins() == Some(all),
                        self.headers().len() > 0,
                        forall|k: int|
                            0 <= k < i ==> !same_origin(#[trigger] all[k], origin_view(*origin)),
                    decreases list@.len() - i,
                {
                    assert(all[i as int] == origin_view(list@[i as int]));
                    if are_same_origin(&list[i], origin) {
                        assert(is_listed(all, origin_view(*origin)));
                        return true;
                    }
                    i = i + 1;
                }
                false
            },
        }
    }

    /// The headers of a request to a target: none to a path; those given where
    /// no defaults apply; and else those given with the defaults that they do
    /// not replace, but none for the host.
    pub fn merge_for(&self, target: &Target, headers: Option<Vec<(String, String)>>) -> (r: Result<
        MergedHeaders,
        MediaParserError,
    >)
        ensures
            merged_view(r) == with_reason(
                merged(self.headers(), self.origins(), target@, given_view(headers)),
            ),
    {
        let origin: &Option<UrlOrigin> = match target {
            Target::Local => return Ok(MergedHeaders { headers: None, force_same_origin: false }),
            Target::Remote(origin) => origin,
        };
        if !self.apply_to(origin) {
            return Ok(MergedHeaders { headers, force_same_origin: false });
        }
        let mut list: Vec<(String, String)> = match headers {
            Some(list) => list,
            None => Vec::new(),
        };
        let ghost given = stream::headers_view(list@);
        assert(given_view(headers) is None ==> given =~= Seq::empty());
        if contains_header(&list, "host") {
            return Err(
                MediaParserError::other(
                    "Per-call Host header is not allowed when default headers apply",
                ),
            );
        }
        let ghost defaults = self.headers();
        let before: usize = list.len();
        let mut added: bool = false;
        let mut i: usize = 0;
        while i < self.headers.len()
            invariant
                i <= self.headers@.len(),
                defaults == stream::headers_view(self.headers@),
                stream::headers_view(list@) == with_defaults(given, defaults, i as int),
                given.len() == before,
                before <= list@.len(),
                added == (list@.len() > before),
            decreases self.headers@.len() - i,
        {
            let ghost old_list = stream::headers_view(list@);
            assert(defaults[i as int] == (self.headers@[i as int].0@, self.headers@[i as int].1@));
            if !contains_header(&list, self.headers[i].0.as_str()) {
                list.push(
                    (
                        self.headers[i].0.as_str().to_owned(),
                        self.headers[i].1.as_str().to_owned(),
                    ),
                );
                added = true;
                assert(stream::headers_view(list@) =~= old_list.push(defaults[i as int]));
            }
            i = i + 1;
        }
        let restricted: bool = self.origins.is_some();
        Ok(MergedHeaders { headers: Some(list), force_same_origin: restricted && added })
    }

    /// The headers of a request to a source, see `merge_for`.
    pub fn merge(&self, source: &str, headers: Option<Vec<(String, String)>>) -> (r: Result<
        MergedHeaders,
        MediaParserError,
    >)
        ensures
            merged_view(r) == with_reason(
                merged(self.headers(), self.origins(), target(source@), given_view(headers)),
            ),
    {
        let target: Target = target_of(source);
        self.merge_for(&target, headers)
    }
}

/// What a list of origins is.
pub open spec fn origins_view(list: Seq<Option<UrlOrigin>>) -> Seq<
    Option<(Seq<char>, Seq<char>, u16)>,
> {
    Seq::new(list.len(), |i: int| origin_view(list[i]))
}

/// Headers that were given stay, each at its place.
pub proof fn law_given_headers_stay(
    given: Seq<(Seq<char>, Seq<char>)>,
    defaults: Seq<(Seq<char>, Seq<char>)>,
    n: int,
)
    requires
        0 <= n <= defaults.len(),
    ensures
        given.len() <= with_defaults(given, defaults, n).len(),
        with_defaults(given, defaults, n).take(given.len() as int) == given,
    decreases n,
{
    if n > 0 {
        law_given_headers_stay(given, defaults, n - 1);
    }
    assert(with_defaults(given, defaults, n).take(given.len() as int) =~= given);
}

/// Behind the merge every default header has its name there, with the value
/// given for it or its own, and what was not given comes from the defaults.
pub proof fn law_defaults_fill_the_gaps(
    given: Seq<(Seq<char>, Seq<char>)>,
    defaults: Seq<(Seq<char>, Seq<char>)>,
    n: int,
)
    requires
        0 <= n <= defaults.len(),
    ensures
        forall|k: int|
            0 <= k < n ==> has_header(
                with_defaults(given, defaults, n),
                (#[trigger] defaults[k]).0,
            ),
        forall|k: int|
            given.len() <= k < with_defaults(given, defaults, n).len() ==> defaults.contains(
                #[trigger] with_defaults(given, defaults, n)[k],
            ),
    decreases n,
{
    if n > 0 {
        law_defaults_fill_the_gaps(given, defaults, n - 1);
        law_given_headers_stay(given, defaults, n - 1);
        let before = with_defaults(given, defaults, n - 1);
        let after = with_defaults(given, defaults, n);
        assert forall|k: int| 0 <= k < n implies has_header(after, (#[trigger] defaults[k]).0) by {
            if k < n - 1 {
                assert(has_header(before, defaults[k].0));
                let i = choose|i: int|
                    0 <= i < before.len() && text::ascii_lowercase((#[trigger] before[i]).0)
                        == text::ascii_lowercase(defaults[k].0);
                assert(after[i] == before[i]);
            } else if !has_header(before, defaults[n - 1].0) {
                assert(after[before.len() as int] == defaults[n - 1]);
            }
        }
        assert forall|k: int| given.len() <= k < after.len() implies defaults.contains(
            #[trigger] after[k],
        ) by {
            if k < before.len() {
                assert(after[k] == before[k]);
            } else {
                assert(after[k] == defaults[n - 1]);
            }
        }
    }
}

/// Headers that are for some origins only reach no other: there the request
/// has the headers given for it.
pub proof fn law_restricted_headers_reach_no_other_origin(
    defaults: Seq<(Seq<char>, Seq<char>)>,
    origins: Seq<Option<(Seq<char>, Seq<char>, u16)>>,
    origin: Option<(Seq<char>, Seq<char>, u16)>,
    given: Option<Seq<(Seq<char>, Seq<char>)>>,
)
    requires
        !origins.contains(origin),
    ensures
        merged(defaults, Some(origins), TargetView::Remote(origin), given) == Ok::<
            (Option<Seq<(Seq<char>, Seq<char>)>>, bool),
            Seq<char>,
        >((given, false)),
{
    if defaults_apply(defaults, Some(origins), origin) {
        let i = choose|i: int|
            0 <= i < origins.len() && same_origin(#[trigger] origins[i], origin);
        assert(origins.contains(origin));
    }
}

// --------------------
// Session keys
// --------------------

/// Whether a header comes no later than another: by its name, then by its
/// value.
pub open spec fn header_le(a: (Seq<char>, Seq<char>), b: (Seq<char>, Seq<char>)) -> bool {
    if a.0 == b.0 {
        text::text_le(a.1, b.1)
    } else {
        text::text_le(a.0, b.0)
    }
}

/// The order of headers.
pub open spec fn header_order() -> spec_fn(
    (Seq<char>, Seq<char>),
    (Seq<char>, Seq<char>),
) -> bool {
    |a: (Seq<char>, Seq<char>), b: (Seq<char>, Seq<char>)| header_le(a, b)
}

/// Whether a list holds the headers of another, with their names in lower case
/// and in order.
pub open spec fn is_key_of(
    headers: Seq<(Seq<char>, Seq<char>)>,
    key: Seq<(Seq<char>, Seq<char>)>,
) -> bool {
    vstd::relations::sorted_by(key, header_order()) && key.to_multiset() == stream::normalized(
        headers,
    ).to_multiset()
}

proof fn lemma_header_order()
    ensures
        vstd::relations::total_ordering(header_order()),
{
    let leq = header_order();
    assert forall|x: (Seq<char>, Seq<char>)| #[trigger] leq(x, x) by {
        text::lemma_text_order(x.1, x.1, x.1);
    }
    assert forall|x: (Seq<char>, Seq<char>), y: (Seq<char>, Seq<char>)|
        #[trigger] leq(x, y) && #[trigger] leq(y, x) implies x == y by {
        text::lemma_text_order(x.0, y.0, x.0);
        text::lemma_text_order(x.1, y.1, x.1);
    }
    assert forall|
        x: (Seq<char>, Seq<char>),
        y: (Seq<char>, Seq<char>),
        z: (Seq<char>, Seq<char>),
    | #[trigger] leq(x, y) && #[trigger] leq(y, z) implies leq(x, z) by {
        text::lemma_text_order(x.0, y.0, z.0);
        text::lemma_text_order(x.0, y.0, x.0);
        text::lemma_text_order(x.1, y.1, z.1);
    }
    assert forall|x: (Seq<char>, Seq<char>), y: (Seq<char>, Seq<char>)|
        #[trigger] leq(x, y) || #[trigger] leq(y, x) by {
        text::lemma_text_order(x.0, y.0, x.0);
        text::lemma_text_order(x.1, y.1, x.1);
    }
}

/// Headers that are the same but for the case of their names and their order
/// have the same key.
pub proof fn law_key_ignores_case_and_order(
    a: Seq<(Seq<char>, Seq<char>)>,
    b: Seq<(Seq<char>, Seq<char>)>,
    key_a: Seq<(Seq<char>, Seq<char>)>,
    key_b: Seq<(Seq<char>, Seq<char>)>,
)
    requires
        is_key_of(a, key_a),
        is_key_of(b, key_b),
        stream::normalized(a).to_multiset() == stream::normalized(b).to_multiset(),
    ensures
        key_a == key_b,
{
    lemma_header_order();
    vstd::seq_lib::lemma_sorted_unique(key_a, key_b, header_order());
}

fn header_at_most(a: &(String, String), b: &(String, String)) -> (r: bool)
    ensures
        r == header_le((a.0@, a.1@), (b.0@, b.1@)),
{
    if same_text(a.0.as_str(), b.0.as_str()) {
        text_at_most(a.1.as_str(), b.1.as_str())
    } else {
        text_at_most(a.0.as_str(), b.0.as_str())
    }
}

/// Puts a header into a list that is in order, at its place.
fn insert_header(list: &mut Vec<(String, String)>, header: (String, String))
    requires
        vstd::relations::sorted_by(stream::headers_view(old(list)@), header_order()),
    ensures
        vstd::relations::sorted_by(stream::headers_view(final(list)@), header_order()),
        stream::headers_view(final(list)@).to_multiset() == stream::headers_view(
            old(list)@,
        ).to_multiset().insert((header.0@, header.1@)),
{
    let ghost given = stream::headers_view(list@);
    let ghost added = (header.0@, header.1@);
    let mut at: usize = list.len();
    while at > 0 && !header_at_most(&list[at - 1], &header)
        invariant
            at <= list@.len(),
            given == stream::headers_view(list@),
            added == (header.0@, header.1@),
            forall|k: int| at <= k < given.len() ==> !header_le(#[trigger] given[k], added),
        decreases at,
    {
        assert(given[at - 1] == (list@[at - 1].0@, list@[at - 1].1@));
        at = at - 1;
    }
    proof {
        if at > 0 {
            assert(given[at - 1] == (list@[at - 1].0@, list@[at - 1].1@));
        }
        lemma_header_order();
    }
    list.insert(at, header);
    proof {
        let now = stream::headers_view(list@);
        assert(now =~= given.insert(at as int, added));
        let leq = header_order();
        assert forall|i: int, j: int| 0 <= i < j < now.len() implies #[trigger] leq(
            now[i],
            now[j],
        ) by {
            if i < at && j > at {
                assert(leq(given[i], given[j - 1]));
            } else if i < at && j < at {
                assert(leq(given[i], given[j]));
            } else if i < at {
                if i < at - 1 {
                    assert(leq(given[i], given[at - 1]));
                }
                assert(leq(given[at - 1], added));
            } else if i == at {
                assert(!leq(given[j - 1], added));
                assert(leq(added, given[j - 1]) || leq(given[j - 1], added));
            } else {
                assert(leq(given[i - 1], given[j - 1]));
            }
        }
        given.to_multiset_ensures();
        lemma_insert_multiset(given, at as int, added);
    }
}

proof fn lemma_insert_multiset<A>(s: Seq<A>, at: int, x: A)
    requires
        0 <= at <= s.len(),
    ensures
        s.insert(at, x).to_multiset() == s.to_multiset().insert(x),
{
    s.to_multiset_ensures();
    assert(s.insert(at, x).remove(at) =~= s);
    s.insert(at, x).to_multiset_ensures();
    let all = s.insert(at, x);
    assert(all[at] == x);
    assert(all.contains(x));
    assert(all.remove(at).to_multiset() =~= all.to_multiset().remove(x));
    assert(all.to_multiset().count(x) > 0);
    assert(all.to_multiset().remove(x).insert(x) =~= all.to_multiset());
}

/// The headers of a key: the names in lower case, all in order.
pub fn key_headers(headers: &[(String, String)]) -> (r: Vec<(String, String)>)
    ensures
        is_key_of(stream::headers_view(headers@), stream::headers_view(r@)),
{
    let ghost all = stream::headers_view(headers@);
    let ghost lowered = stream::normalized(all);
    let mut out: Vec<(String, String)> = Vec::new();
    let mut i: usize = 0;
    assert(stream::headers_view(out@) =~= lowered.take(0));
    while i < headers.len()
        invariant
            i <= headers@.len(),
            all == stream::headers_view(headers@),
            lowered == stream::normalized(all),
            vstd::relations::sorted_by(stream::headers_view(out@), header_order()),
            stream::headers_view(out@).to_multiset() == lowered.take(i as int).to_multiset(),
        decreases headers@.len() - i,
    {
        let name: String = to_ascii_lowercase(headers[i].0.as_str());
        let value: String = headers[i].1.as_str().to_owned();
        let ghost added = (name@, value@);
        proof {
            assert(lowered[i as int] == added);
            assert(lowered.take(i + 1) =~= lowered.take(i as int).push(added));
            vstd::seq_lib::to_multiset_build(lowered.take(i as int), added);
        }
        insert_header(&mut out, (name, value));
        i = i + 1;
    }
    assert(lowered.take(i as int) =~= lowered);
    out
}

/// Which contents a local source had: its length, and when it was last
/// changed, in nanoseconds.
#[derive(Debug, Clone, Copy, PartialEq, Eq, Hash)]
pub struct LocalSourceVersion {
    pub length: u64,
    pub modified_nanos: Option<u128>,
}

/// What a session on a source is found by.
#[derive(Debug, Clone, PartialEq, Eq, Hash)]
pub struct MediaSourceKey {
    pub source: String,
    pub headers: Vec<(String, String)>,
    pub force_same_origin: bool,
    pub local_version: Option<LocalSourceVersion>,
}

/// Whether a key is that of a source: one on a remote source goes by the
/// headers, one on a path by the contents.
pub open spec fn is_source_key(
    key: MediaSourceKey,
    source: Seq<char>,
    remote: bool,
    merged: (Option<Seq<(Seq<char>, Seq<char>)>>, bool),
    version: Option<LocalSourceVersion>,
) -> bool {
    &&& key.source@ == source
    &&& is_key_of(
        if remote && merged.0 is Some {
            merged.0->Some_0
        } else {
            Seq::empty()
        },
        stream::headers_view(key.headers@),
    )
    &&& key.force_same_origin == (remote && merged.1)
    &&& key.local_version == if remote {
        None
    } else {
        version
    }
}

/// The key of a source that is known to be remote or not.
pub fn key_for(
    source: &str,
    remote: bool,
    merged: &MergedHeaders,
    version: Option<LocalSourceVersion>,
) -> (r: MediaSourceKey)
    ensures
        is_source_key(r, source@, remote, merged@, version),
{
    let headers: Vec<(String, String)> = match &merged.headers {
        Some(list) => {
            if remote {
                key_headers(list.as_slice())
            } else {
                no_headers()
            }
        },
        None => no_headers(),
    };
    MediaSourceKey {
        source: source.to_owned(),
        headers,
        force_same_origin: remote && merged.force_same_origin,
        local_version: if remote {
            None
        } else {
            version
        },
    }
}

fn no_headers() -> (r: Vec<(String, String)>)
    ensures
        is_key_of(Seq::empty(), stream::headers_view(r@)),
{
    let r: Vec<(String, String)> = Vec::new();
    assert(stream::headers_view(r@) =~= Seq::empty());
    assert(stream::normalized(Seq::empty()) =~= Seq::empty());
    r
}

/// The key of a source. The version is that of the file, where the source is a
/// path that could be read.
pub fn source_key(
    source: &str,
    merged: &MergedHeaders,
    version: Option<LocalSourceVersion>,
) -> (r: MediaSourceKey)
    ensures
        is_source_key(r, source@, target(source@) is Remote, merged@, version),
{
    key_for(source, is_http_source(source), merged, version)
}

/// When a session ends.
#[derive(Debug, Clone, Copy)]
pub enum ExpirationPolicy {
    /// A time after it was opened.
    Absolute(Duration),
    /// A time after it was last used.
    Sliding(Duration),
}

/// The time that a session lives. What is behind a URL can change, so a remote
/// session ends by its age. A local session is found by length and change
/// time, so it ends when it is not used.
pub fn expiration_for(remote: bool) -> (r: ExpirationPolicy)
    ensures
        match r {
            ExpirationPolicy::Absolute(d) => remote && d.nanos() == 300_000_000_000,
            ExpirationPolicy::Sliding(d) => !remote && d.nanos() == 60_000_000_000,
        },
{
    if remote {
        ExpirationPolicy::Absolute(Duration::from_millis(REMOTE_SESSION_SECS * 1000))
    } else {
        ExpirationPolicy::Sliding(Duration::from_millis(LOCAL_SESSION_SECS * 1000))
    }
}

/// When a session on a source ends, see `expiration_for`.
pub fn session_expiration(key: &MediaSourceKey) -> (r: ExpirationPolicy)
    ensures
        match r {
            ExpirationPolicy::Absolute(d) => target(key.source@) is Remote && d.nanos()
                == 300_000_000_000,
            ExpirationPolicy::Sliding(d) => target(key.source@) is Local && d.nanos()
                == 60_000_000_000,
        },
{
    expiration_for(is_http_source(key.source.as_str()))
}

} // verus!
