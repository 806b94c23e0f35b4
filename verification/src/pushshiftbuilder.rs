//! Builds validated, paginated request URLs for the Pushshift API: one
//! write-once parameter mapping per builder, a validated collection name,
//! a bounded page size, and defaulted sort and cursor parameters so every
//! built URL is paginatable from "now" backward.

use vstd::prelude::*;

use crate::params::{
    has_key, keys_unique, lemma_has_key_push, lemma_has_key_remove_other, lemma_lookup_unique,
    lemma_remove_key_absent, lemma_remove_key_idem, lemma_remove_key_push_other,
    lemma_remove_key_push_same, lookup, remove_key, PairsView, ParamList,
};
use crate::psendpoint::PSEndpoint;
use crate::pserror::{PSError, MAX_PS_FETCH_SIZE};
use crate::psurl::{
    fragment_free, lemma_fragment_free_concat, url_ok_of, PsUrl, MAX_URL_BASE_INPUT,
};
use crate::sortopts::{Parameter, Sort};
use crate::strutil::{dec_str, strings_view, u32_to_string};
use crate::timeconvenience::TimeConvenience;

verus! {

/// The API base every endpoint hangs under.
pub open spec fn ps_base() -> Seq<char> {
    "https://api.pushshift.io/reddit"@
}

/// What a builder looks like to specifications.
#[verifier::ext_equal]
pub struct BuilderView {
    pub url: Seq<char>,
    pub params: PairsView,
}

/// Whether `c` is allowed in a collection name: a letter, a digit, an
/// underscore or a hyphen.
pub open spec fn is_subreddit_char(c: char) -> bool {
    ('a' <= c <= 'z') || ('A' <= c <= 'Z') || ('0' <= c <= '9') || c == '_' || c == '-'
}

/// Whether `s` is a valid collection name: non-empty, with every
/// character from the allow-list.
pub open spec fn valid_subreddit(s: Seq<char>) -> bool {
    s.len() > 0 && forall|i: int| 0 <= i < s.len() ==> is_subreddit_char(#[trigger] s[i])
}

/// `params` with the deterministic sort injected when unset: `sort`, and
/// then `sort_type` where that is unset too.
pub open spec fn with_sort(params: PairsView, sort_v: Seq<char>, type_v: Seq<char>) -> PairsView {
    if has_key(params, "sort"@) {
        params
    } else if has_key(params, "sort_type"@) {
        params.push(("sort"@, sort_v))
    } else {
        params.push(("sort"@, sort_v)).push(("sort_type"@, type_v))
    }
}

/// `params` with the "before" cursor defaulted to the largest 32-bit
/// value when unset, so the query pages from "now" backward.
pub open spec fn with_before_default(params: PairsView) -> PairsView {
    if has_key(params, "before"@) {
        params
    } else {
        params.push(("before"@, dec_str(u32::MAX as u64)))
    }
}

/// What `build` turns a parameter mapping into: descending sort by
/// creation time and a defaulted cursor.
pub open spec fn build_params(params: PairsView) -> PairsView {
    with_before_default(with_sort(params, "desc"@, "created_utc"@))
}

/// One step of building per collection name: the set name replaced and
/// the defaults injected, as `replace_sub` followed by `build` leave the
/// parameter mapping.
pub open spec fn multi_step(params: PairsView, name: Seq<char>) -> PairsView {
    build_params(remove_key(params, "subreddit"@).push(("subreddit"@, name)))
}

/// The parameter mapping after the first `i` names of a multi-build.
pub open spec fn multi_state(params: PairsView, names: Seq<Seq<char>>, i: int) -> PairsView
    decreases i,
{
    if i <= 0 {
        params
    } else {
        multi_step(multi_state(params, names, i - 1), names[i - 1])
    }
}

/// Whether a multi-build succeeds: every name valid, and every rendered
/// URL accepted by the url library, in order.
pub open spec fn multi_ok(url: Seq<char>, params: PairsView, names: Seq<Seq<char>>) -> bool
    decreases names.len(),
{
    if names.len() == 0 {
        true
    } else {
        &&& valid_subreddit(names.first())
        &&& url_ok_of(url, multi_step(params, names.first()))
        &&& multi_ok(url, multi_step(params, names.first()), names.drop_first())
    }
}

/// Checks a collection name against the allow-list.
fn is_valid_subreddit(sub: &str) -> (r: bool)
    ensures
        r == valid_subreddit(sub@),
{
    let n = sub.unicode_len();
    if n == 0 {
        return false;
    }
    for i in 0..n
        invariant
            n == sub@.len(),
            n > 0,
            forall|j: int| 0 <= j < i ==> is_subreddit_char(#[trigger] sub@[j]),
    {
        let c = sub.get_char(i);
        let ok = ('a' <= c && c <= 'z') || ('A' <= c && c <= 'Z') || ('0' <= c && c <= '9') || c
            == '_' || c == '-';
        if !ok {
            return false;
        }
    }
    true
}

/// Builds a request URL for the Pushshift API.
#[derive(Debug)]
pub struct PushshiftBuilder {
    url: String,
    params: ParamList,
}

impl View for PushshiftBuilder {
    type V = BuilderView;

    closed spec fn view(&self) -> BuilderView {
        BuilderView { url: self.url@, params: self.params@ }
    }
}

impl PushshiftBuilder {
    /// Well-formedness: no parameter key is set twice, and the endpoint
    /// URL is one the renderer accepts without a panic path: fragment
    /// free and bounded.
    pub open spec fn wf(&self) -> bool {
        &&& keys_unique(self@.params)
        &&& fragment_free(self@.url)
        &&& self@.url.len() < MAX_URL_BASE_INPUT
    }

    /// A builder for `endpoint` with no parameters set.
    pub fn new(endpoint: PSEndpoint) -> (r: PushshiftBuilder)
        ensures
            r@.url == ps_base() + endpoint.path_spec(),
            r@.params == Seq::<(Seq<char>, Seq<char>)>::empty(),
            r.wf(),
    {
        let mut url = String::new();
        url.append("https://api.pushshift.io/reddit");
        url.append(endpoint.path());
        assert(url@ =~= ps_base() + endpoint.path_spec());
        proof {
            reveal_strlit("https://api.pushshift.io/reddit");
            reveal_strlit("/comment/search");
            reveal_strlit("/submission/search");
            reveal_strlit("/subreddit/search");
            assert(fragment_free(ps_base()));
            assert(fragment_free(endpoint.path_spec()));
            lemma_fragment_free_concat(ps_base(), endpoint.path_spec());
        }
        PushshiftBuilder { url, params: ParamList::new() }
    }

    /// Sets a parameter once; a second set of the same key fails with
    /// `AlreadyAdded` and changes nothing.
    fn add_param(&mut self, param: &str, par_options: &str) -> (r: Result<(), PSError>)
        ensures
            final(self)@.url == old(self)@.url,
            match r {
                Ok(()) => !has_key(old(self)@.params, param@) && final(self)@.params == old(
                    self,
                )@.params.push((param@, par_options@)),
                Err(e) => has_key(old(self)@.params, param@) && final(self)@ == old(self)@ && (
                e matches PSError::AlreadyAdded(p) && p@ == param@),
            },
            old(self).wf() ==> final(self).wf(),
    {
        self.params.insert(param, par_options)
    }

    /// Sets the "before" cursor.
    pub fn before(&mut self, time: TimeConvenience) -> (r: Result<(), PSError>)
        ensures
            final(self)@.url == old(self)@.url,
            match r {
                Ok(()) => !has_key(old(self)@.params, "before"@) && final(self)@.params == old(
                    self,
                )@.params.push(("before"@, time.as_str_spec())),
                Err(e) => has_key(old(self)@.params, "before"@) && final(self)@ == old(self)@ && (
                e matches PSError::AlreadyAdded(p) && p@ == "before"@),
            },
            old(self).wf() ==> final(self).wf(),
    {
        let value = time.as_query_value();
        self.add_param("before", value.as_str())
    }

    /// Sets the "after" cursor.
    pub fn after(&mut self, time: TimeConvenience) -> (r: Result<(), PSError>)
        ensures
            final(self)@.url == old(self)@.url,
            match r {
                Ok(()) => !has_key(old(self)@.params, "after"@) && final(self)@.params == old(
                    self,
                )@.params.push(("after"@, time.as_str_spec())),
                Err(e) => has_key(old(self)@.params, "after"@) && final(self)@ == old(self)@ && (
                e matches PSError::AlreadyAdded(p) && p@ == "after"@),
            },
            old(self).wf() ==> final(self).wf(),
    {
        let value = time.as_query_value();
        self.add_param("after", value.as_str())
    }

    /// Sets the minimum score filter, expressed as `>N`.
    pub fn score_threshold(&mut self, thresh: u32) -> (r: Result<(), PSError>)
        ensures
            final(self)@.url == old(self)@.url,
            match r {
                Ok(()) => !has_key(old(self)@.params, "score"@) && final(self)@.params == old(
                    self,
                )@.params.push(("score"@, ">"@ + dec_str(thresh as u64))),
                Err(e) => has_key(old(self)@.params, "score"@) && final(self)@ == old(self)@ && (
                e matches PSError::AlreadyAdded(p) && p@ == "score"@),
            },
            old(self).wf() ==> final(self).wf(),
    {
        let mut value = String::new();
        value.append(">");
        let digits = u32_to_string(thresh);
        value.append(digits.as_str());
        self.add_param("score", value.as_str())
    }

    /// Sets the collection name, validated against the allow-list.
    pub fn subreddit(&mut self, sub: &str) -> (r: Result<(), PSError>)
        ensures
            final(self)@.url == old(self)@.url,
            !valid_subreddit(sub@) ==> final(self)@ == old(self)@ && (r matches
                Err(PSError::InvalidSubreddit(s)) && s@ == sub@),
            valid_subreddit(sub@) ==> match r {
                Ok(()) => !has_key(old(self)@.params, "subreddit"@) && final(self)@.params == old(
                    self,
                )@.params.push(("subreddit"@, sub@)),
                Err(e) => has_key(old(self)@.params, "subreddit"@) && final(self)@ == old(self)@
                    && (e matches PSError::AlreadyAdded(p) && p@ == "subreddit"@),
            },
            old(self).wf() ==> final(self).wf(),
    {
        if is_valid_subreddit(sub) {
            self.add_param("subreddit", sub)
        } else {
            Err(PSError::InvalidSubreddit(sub.to_owned()))
        }
    }

    /// Replaces the currently set collection name by `sub`.
    pub fn replace_sub(&mut self, sub: &str) -> (r: Result<(), PSError>)
        ensures
            final(self)@.url == old(self)@.url,
            !valid_subreddit(sub@) ==> final(self)@.params == remove_key(
                old(self)@.params,
                "subreddit"@,
            ) && (r matches Err(PSError::InvalidSubreddit(s)) && s@ == sub@),
            valid_subreddit(sub@) ==> r is Ok && final(self)@.params == remove_key(
                old(self)@.params,
                "subreddit"@,
            ).push(("subreddit"@, sub@)),
            old(self).wf() ==> final(self).wf(),
    {
        self.params.remove("subreddit");
        self.subreddit(sub)
    }

    /// Sets the page size; fails with `SizeTooHigh` above the source's
    /// documented maximum.
    pub fn size(&mut self, size: u32) -> (r: Result<(), PSError>)
        ensures
            final(self)@.url == old(self)@.url,
            size > MAX_PS_FETCH_SIZE ==> final(self)@ == old(self)@ && (r matches
                Err(PSError::SizeTooHigh(got)) && got == size),
            size <= MAX_PS_FETCH_SIZE ==> match r {
                Ok(()) => !has_key(old(self)@.params, "size"@) && final(self)@.params == old(
                    self,
                )@.params.push(("size"@, dec_str(size as u64))),
                Err(e) => has_key(old(self)@.params, "size"@) && final(self)@ == old(self)@ && (
                e matches PSError::AlreadyAdded(p) && p@ == "size"@),
            },
            old(self).wf() ==> final(self).wf(),
    {
        if size <= MAX_PS_FETCH_SIZE {
            let value = u32_to_string(size);
            self.add_param("size", value.as_str())
        } else {
            Err(PSError::SizeTooHigh(size))
        }
    }

    /// Injects the deterministic sort when unset: always descending by
    /// creation time, so pages can be cursored.
    fn sort(&mut self, sort: Sort, by: Parameter)
        ensures
            final(self)@.url == old(self)@.url,
            final(self)@.params == with_sort(old(self)@.params, sort.as_str_spec(), by.as_str_spec()),
            old(self).wf() ==> final(self).wf(),
    {
        if !self.params.contains_key("sort") {
            let sort_value = sort.as_str();
            self.params.set("sort", sort_value);
            proof {
                reveal_strlit("sort");
                reveal_strlit("sort_type");
                assert("sort"@.len() == 4);
                assert("sort_type"@.len() == 9);
                assert("sort"@ != "sort_type"@);
                lemma_remove_key_absent(old(self)@.params, "sort"@);
                lemma_has_key_push(
                    old(self)@.params,
                    "sort_type"@,
                    ("sort"@, sort.as_str_spec()),
                );
            }
            if !self.params.contains_key("sort_type") {
                let ghost mid = self@.params;
                let type_value = by.as_str();
                self.params.set("sort_type", type_value);
                proof {
                    lemma_remove_key_absent(mid, "sort_type"@);
                }
            }
        }
    }

    /// Builds one request URL per collection name: replaces the set
    /// collection by each name in turn and builds, stopping at the first
    /// failure. Every returned URL carries its own name under
    /// "subreddit" and the same remaining parameters as every other.
    pub fn build_multiple(&mut self, subs: &Vec<String>) -> (r: Result<Vec<PsUrl>, PSError>)
        requires
            old(self).wf(),
        ensures
            final(self).wf(),
            final(self)@.url == old(self)@.url,
            r is Ok <==> multi_ok(old(self)@.url, old(self)@.params, strings_view(subs@)),
            r matches Ok(v) ==> {
                &&& v@.len() == subs@.len()
                &&& final(self)@.params == multi_state(
                    old(self)@.params,
                    strings_view(subs@),
                    subs@.len() as int,
                )
                &&& forall|i: int| 0 <= i < subs@.len() ==> valid_subreddit(#[trigger] subs@[i]@)
                &&& forall|i: int|
                    0 <= i < v@.len() ==> {
                        &&& (#[trigger] v@[i])@.base == old(self)@.url
                        &&& v@[i].wf()
                        &&& v@[i]@.params == multi_step(
                            multi_state(old(self)@.params, strings_view(subs@), i),
                            strings_view(subs@)[i],
                        )
                        &&& lookup(v@[i]@.params, "subreddit"@) == Some(subs@[i]@)
                        &&& remove_key(v@[i]@.params, "subreddit"@) == remove_key(
                            final(self)@.params,
                            "subreddit"@,
                        )
                    }
            },
            r matches Err(e) ==> (e matches PSError::InvalidSubreddit(_) || e matches
                PSError::Parse(_)),
            r matches Err(PSError::InvalidSubreddit(s)) ==> !valid_subreddit(s@) && (exists|i: int|
                {
                    &&& 0 <= i < subs@.len()
                    &&& (#[trigger] subs@[i])@ == s@
                    &&& forall|j: int| 0 <= j < i ==> valid_subreddit(#[trigger] subs@[j]@)
                }),
    {
        let n = subs.len();
        let ghost names = strings_view(subs@);
        let mut urls: Vec<PsUrl> = Vec::new();
        proof {
            assert(names.skip(0) =~= names);
        }
        for i in 0..n
            invariant
                n == subs@.len(),
                names == strings_view(subs@),
                self.wf(),
                self@.url == old(self)@.url,
                urls@.len() == i,
                self@.params == multi_state(old(self)@.params, names, i as int),
                multi_ok(old(self)@.url, old(self)@.params, names) == multi_ok(
                    old(self)@.url,
                    self@.params,
                    names.skip(i as int),
                ),
                i > 0 ==> has_key(self@.params, "sort"@) && has_key(self@.params, "before"@),
                forall|j: int| 0 <= j < i ==> valid_subreddit(#[trigger] subs@[j]@),
                forall|j: int|
                    0 <= j < i ==> {
                        &&& (#[trigger] urls@[j])@.base == old(self)@.url
                        &&& urls@[j].wf()
                        &&& urls@[j]@.params == multi_step(
                            multi_state(old(self)@.params, names, j),
                            names[j],
                        )
                        &&& lookup(urls@[j]@.params, "subreddit"@) == Some(subs@[j]@)
                        &&& remove_key(urls@[j]@.params, "subreddit"@) == remove_key(
                            self@.params,
                            "subreddit"@,
                        )
                    },
        {
            let ghost p_before = self@.params;
            proof {
                assert(names[i as int] == subs@[i as int]@);
                assert(names.skip(i as int).first() == names[i as int]);
                assert(names.skip(i as int).drop_first() =~= names.skip(i + 1));
            }
            match self.replace_sub(subs[i].as_str()) {
                Ok(()) => {},
                Err(e) => {
                    proof {
                        assert(!valid_subreddit(names[i as int]));
                        assert(!multi_ok(old(self)@.url, p_before, names.skip(i as int)));
                    }
                    return Err(e);
                },
            }
            let ghost q = self@.params;
            let ghost pair = ("subreddit"@, subs@[i as int]@);
            let ghost removed = remove_key(p_before, "subreddit"@);
            proof {
                reveal_strlit("subreddit");
                reveal_strlit("sort");
                reveal_strlit("before");
                assert("subreddit"@.len() == 9 && "sort"@.len() == 4 && "before"@.len() == 6);
                if i > 0 {
                    lemma_has_key_remove_other(p_before, "subreddit"@, "sort"@);
                    lemma_has_key_remove_other(p_before, "subreddit"@, "before"@);
                    lemma_has_key_push(removed, "sort"@, pair);
                    lemma_has_key_push(removed, "before"@, pair);
                }
            }
            match self.build() {
                Ok(built) => {
                    let ghost p_after = self@.params;
                    proof {
                        reveal_strlit("subreddit");
                        reveal_strlit("sort");
                        reveal_strlit("sort_type");
                        reveal_strlit("before");
                        assert("subreddit"@.len() == 9 && "sort"@.len() == 4 && "sort_type"@.len()
                            == 9 && "before"@.len() == 6);
                        assert("sort"@ != "subreddit"@ && "before"@ != "subreddit"@);
                        assert("sort_type"@[4] == '_' && "subreddit"@[4] == 'e');
                        assert("sort_type"@ != "subreddit"@);
                        // The name pair survives the defaulting pushes.
                        let k = removed.len() as int;
                        assert(q[k] == pair);
                        assert(q.len() > 0);
                        assert(p_after[k] == pair);
                        assert(keys_unique(p_after));
                        lemma_lookup_unique(p_after, k);
                        // The defaulted keys differ from the name's, so
                        // removing the name leaves the cursor intact.
                        lemma_remove_key_push_same(removed, "subreddit"@, pair);
                        lemma_remove_key_idem(p_before, "subreddit"@);
                        assert(remove_key(q, "subreddit"@) == removed);
                        if !has_key(q, "sort"@) {
                            if !has_key(q, "sort_type"@) {
                                lemma_remove_key_push_other(
                                    q,
                                    "subreddit"@,
                                    ("sort"@, "desc"@),
                                );
                                lemma_remove_key_push_other(
                                    q.push(("sort"@, "desc"@)),
                                    "subreddit"@,
                                    ("sort_type"@, "created_utc"@),
                                );
                            } else {
                                lemma_remove_key_push_other(
                                    q,
                                    "subreddit"@,
                                    ("sort"@, "desc"@),
                                );
                            }
                        }
                        let mid = with_sort(q, "desc"@, "created_utc"@);
                        if !has_key(mid, "before"@) {
                            lemma_remove_key_push_other(
                                mid,
                                "subreddit"@,
                                ("before"@, dec_str(u32::MAX as u64)),
                            );
                        }
                        // The defaults, pushed or kept, leave both keys set.
                        lemma_has_key_push(q, "sort"@, ("sort"@, "desc"@));
                        lemma_has_key_push(
                            q.push(("sort"@, "desc"@)),
                            "sort_type"@,
                            ("sort_type"@, "created_utc"@),
                        );
                        lemma_has_key_push(q.push(("sort"@, "desc"@)), "sort"@, ("sort_type"@, "created_utc"@));
                        lemma_has_key_push(mid, "before"@, ("before"@, dec_str(u32::MAX as u64)));
                        lemma_has_key_push(mid, "sort"@, ("before"@, dec_str(u32::MAX as u64)));
                        assert(has_key(p_after, "sort"@));
                        assert(has_key(p_after, "before"@));
                        // One multi-build step has been applied in full.
                        assert(p_after == multi_step(p_before, names[i as int]));
                        assert(p_after == multi_state(old(self)@.params, names, i + 1));
                        assert(multi_ok(old(self)@.url, p_before, names.skip(i as int))
                            == multi_ok(old(self)@.url, p_after, names.skip(i + 1)));
                        assert(built@.params == multi_step(
                            multi_state(old(self)@.params, names, i as int),
                            names[i as int],
                        ));
                    }
                    urls.push(built);
                },
                Err(e) => {
                    proof {
                        assert(q == remove_key(p_before, "subreddit"@).push(
                            ("subreddit"@, names[i as int]),
                        ));
                        assert(!url_ok_of(old(self)@.url, multi_step(p_before, names[i as int])));
                        assert(!multi_ok(old(self)@.url, p_before, names.skip(i as int)));
                    }
                    return Err(e);
                },
            }
        }
        proof {
            assert(names.skip(n as int) =~= Seq::<Seq<char>>::empty());
            assert(multi_ok(old(self)@.url, old(self)@.params, names));
        }
        Ok(urls)
    }

    /// Builds the request URL, provided some parameter was set. Always
    /// injects the deterministic sort and a "before" cursor defaulted to
    /// the largest 32-bit value, then renders and escapes the URL. Does
    /// not consume the builder, so `replace_sub` can build further URLs.
    pub fn build(&mut self) -> (r: Result<PsUrl, PSError>)
        requires
            old(self).wf(),
        ensures
            old(self)@.params.len() == 0 ==> final(self)@ == old(self)@ && (r matches Err(PSError::NoParams)),
            old(self)@.params.len() > 0 ==> {
                &&& final(self)@.url == old(self)@.url
                &&& final(self)@.params == build_params(old(self)@.params)
                &&& (r is Ok <==> url_ok_of(old(self)@.url, build_params(old(self)@.params)))
                &&& (r matches Ok(u) ==> u@.base == old(self)@.url && u@.params == build_params(
                    old(self)@.params,
                ) && u.wf())
                &&& (r matches Err(e) ==> e matches PSError::Parse(_))
            },
            old(self).wf() ==> final(self).wf(),
    {
        if self.params.len() == 0 {
            return Err(PSError::NoParams);
        }
        self.sort(Sort::Desc, Parameter::CreatedUTC);
        if !self.params.contains_key("before") {
            let ghost mid = self@.params;
            let value = u32_to_string(u32::MAX);
            self.params.set("before", value.as_str());
            proof {
                lemma_remove_key_absent(mid, "before"@);
            }
        }
        match PsUrl::assemble(self.url.clone(), self.params.duplicate()) {
            Ok(built) => Ok(built),
            Err(error) => Err(error),
        }
    }
}

} // verus!
