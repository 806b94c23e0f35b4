//! A built, fully qualified request URL: the base endpoint, the query
//! parameters it was rendered from, and the rendered text itself.

use vstd::prelude::*;

use crate::params::{keys_unique, remove_key, vec_pairs_view, PairsView, ParamList};
use crate::pserror::PSError;
use crate::strutil::{dec_str, u64_to_string};

verus! {

/// The longest base text accepted for rendering. The url library keeps
/// 32-bit positions into the rendered text; a parsed base may grow past
/// its input (percent-encoding, host normalization), so the bound stays
/// far below that limit.
pub const MAX_URL_BASE_INPUT: usize = 0x100000;

/// Whether `s` holds no fragment marker.
pub open spec fn fragment_free(s: Seq<char>) -> bool {
    forall|i: int| 0 <= i < s.len() ==> #[trigger] s[i] != '#'
}

/// What a built query looks like to specifications.
#[verifier::ext_equal]
pub struct PsUrlView {
    pub base: Seq<char>,
    pub params: PairsView,
    pub href: Seq<char>,
}

/// The text the url library renders for `base` with `params` appended to
/// its query: the escaped, fully qualified request URL.
pub uninterp spec fn url_string_of(base: Seq<char>, params: PairsView) -> Seq<char>;

/// Whether the url library accepts `base` as an absolute URL, so that
/// rendering it with `params` appended succeeds. Parsing is a function of
/// the text alone, so success is too.
pub uninterp spec fn url_ok_of(base: Seq<char>, params: PairsView) -> bool;

/// Relies on `url::Url::parse_with_params` and `url::Url::as_str`: parses
/// `base` as an absolute URL, appends each pair to its query with
/// percent-escaping, and renders the result. Both whether parsing
/// succeeds and the rendered text are functions of the base and the
/// pairs alone. On failure the parse error's description is returned.
/// The `requires` excludes the inputs on which the call could panic in
/// the url library's 32-bit position bookkeeping: a base holding a
/// fragment marker (restoring the fragment after the pairs are appended
/// converts the grown length to 32 bits), and a base so long that its
/// parsed form could reach four gibibytes (recording the query start
/// makes the same conversion).
#[verifier::external_body]
fn render_url(base: &str, pairs: &Vec<(String, String)>) -> (r: Result<String, String>)
    requires
        fragment_free(base@),
        base@.len() < MAX_URL_BASE_INPUT,
    ensures
        r is Ok <==> url_ok_of(base@, vec_pairs_view(pairs@)),
        r matches Ok(h) ==> h@ == url_string_of(base@, vec_pairs_view(pairs@)),
{
    match url::Url::parse_with_params(base, pairs.iter()) {
        Ok(parsed) => Ok(parsed.as_str().to_string()),
        Err(error) => Err(error.to_string()),
    }
}

/// One live query: a paginatable request URL plus the parameters it was
/// built from, kept so the cursor can be rebuilt between rounds.
#[derive(Debug)]
pub struct PsUrl {
    base: String,
    params: ParamList,
    href: String,
}

impl View for PsUrl {
    type V = PsUrlView;

    closed spec fn view(&self) -> PsUrlView {
        PsUrlView { base: self.base@, params: self.params@, href: self.href@ }
    }
}

/// Well-formedness of a query view: unique parameter keys, and the
/// rendered text is the one the url library gives for base and
/// parameters.
pub open spec fn wf_view(v: PsUrlView) -> bool {
    &&& keys_unique(v.params)
    &&& v.href == url_string_of(v.base, v.params)
    &&& fragment_free(v.base)
    &&& v.base.len() < MAX_URL_BASE_INPUT
}

/// The parameters of a query after its "before" cursor is replaced by
/// `t`: every old "before" pair removed, the new one appended.
pub open spec fn cursor_params(params: PairsView, t: u64) -> PairsView {
    remove_key(params, "before"@).push(("before"@, dec_str(t)))
}

impl PsUrl {
    /// Well-formedness of this query.
    pub open spec fn wf(&self) -> bool {
        wf_view(self@)
    }

    /// Renders `base` with `params` into a full request URL; succeeds
    /// exactly when the url library accepts the base.
    pub fn assemble(base: String, params: ParamList) -> (r: Result<PsUrl, PSError>)
        requires
            fragment_free(base@),
            base@.len() < MAX_URL_BASE_INPUT,
        ensures
            r is Ok <==> url_ok_of(base@, params@),
            r matches Ok(u) ==> u@.base == base@ && u@.params == params@ && u@.href
                == url_string_of(base@, params@),
            r matches Err(e) ==> e matches PSError::Parse(_),
    {
        match render_url(base.as_str(), params.pairs()) {
            Ok(href) => Ok(PsUrl { base, params, href }),
            Err(message) => Err(PSError::Parse(message)),
        }
    }

    /// The rendered request URL.
    pub fn as_str(&self) -> (r: &str)
        ensures
            r@ == self@.href,
    {
        self.href.as_str()
    }

    /// The base endpoint URL this query was built for.
    pub fn base(&self) -> (r: &str)
        ensures
            r@ == self@.base,
    {
        self.base.as_str()
    }

    /// The query parameters this URL was rendered from.
    pub fn params(&self) -> (r: &ParamList)
        ensures
            r@ == self@.params,
    {
        &self.params
    }

    /// A copy of this query.
    pub fn duplicate(&self) -> (r: PsUrl)
        ensures
            r@ == self@,
    {
        PsUrl { base: self.base.clone(), params: self.params.duplicate(), href: self.href.clone() }
    }

    /// Rebuilds this query with its "before" cursor replaced by `epoch`,
    /// so the next fetch asks for strictly older records; succeeds
    /// exactly when the url library accepts the base again.
    pub fn replace_before(&self, epoch: u64) -> (r: Result<PsUrl, PSError>)
        requires
            self.wf(),
        ensures
            r is Ok <==> url_ok_of(self@.base, cursor_params(self@.params, epoch)),
            r matches Ok(u) ==> u@.base == self@.base && u@.params == cursor_params(
                self@.params,
                epoch,
            ) && u.wf(),
            r matches Err(e) ==> e matches PSError::Parse(_),
    {
        let mut params = self.params.duplicate();
        let value = u64_to_string(epoch);
        params.set("before", value.as_str());
        PsUrl::assemble(self.base.clone(), params)
    }
}

/// Fragment-free texts stay fragment-free under concatenation.
pub proof fn lemma_fragment_free_concat(a: Seq<char>, b: Seq<char>)
    requires
        fragment_free(a),
        fragment_free(b),
    ensures
        fragment_free(a + b),
{
    assert forall|i: int| 0 <= i < (a + b).len() implies #[trigger] (a + b)[i] != '#' by {
        if i < a.len() {
            assert((a + b)[i] == a[i]);
        } else {
            assert((a + b)[i] == b[i - a.len()]);
        }
    }
}

} // verus!
