//! The harvest loop: owns the record set, the live queries and the
//! backoff state; applies one round of fetch outcomes at a time, drops
//! exhausted queries, advances cursors, deduplicates and junk-filters,
//! and stops once the target count is reached or the source is exhausted.

use vstd::prelude::*;
use vstd::seq_lib::*;
use vstd::set_lib::*;

use crate::anonymize::{anonymize_node, anonymize_node_spec};
use crate::nodecsv::{load_spec, read_nodes, save_spec, write_nodes};
use crate::nodeset::{lemma_filter_to_set, lemma_to_set_push, nodes_seq_view, NodeSet};
use crate::nodestructs::{node_of_raw, Node, NodeView, RawNode, RawNodeView};
use crate::pserror::PSError;
use crate::psurl::{cursor_params, url_ok_of, url_string_of, wf_view, PsUrl, PsUrlView};
use crate::strutil::str_eq;

verus! {

/// The backoff a fresh harvester starts with, in seconds.
pub const DEFAULT_BACKOFF: u64 = 10;

/// The backoff ceiling, in seconds.
pub const MAX_BACKOFF: u64 = 60;

/// How many consecutive empty rounds exhaust the harvest.
pub const DEFAULT_THRESH: u8 = 3;

/// What one fetch of one query produced: a transport or decode failure,
/// or a decoded page of records (possibly empty).
#[derive(Debug)]
pub enum FetchOutcome {
    /// The fetch or the decode failed; the query stays live.
    Failure,
    /// A decoded page; an empty one retires the query.
    Page(Vec<RawNode>),
}

/// What one fetch outcome looks like to specifications.
#[verifier::ext_equal]
pub enum OutcomeView {
    Failure,
    Page(Seq<RawNodeView>),
}

/// The views of a wire-record sequence.
pub open spec fn raws_seq_view(s: Seq<RawNode>) -> Seq<RawNodeView> {
    s.map_values(|r: RawNode| r@)
}

impl View for FetchOutcome {
    type V = OutcomeView;

    open spec fn view(&self) -> OutcomeView {
        match self {
            FetchOutcome::Failure => OutcomeView::Failure,
            FetchOutcome::Page(p) => OutcomeView::Page(raws_seq_view(p@)),
        }
    }
}

impl FetchOutcome {
    /// A copy of this outcome.
    pub fn duplicate(&self) -> (r: FetchOutcome)
        ensures
            r@ == self@,
    {
        match self {
            FetchOutcome::Failure => FetchOutcome::Failure,
            FetchOutcome::Page(p) => {
                let n = p.len();
                let mut out: Vec<RawNode> = Vec::new();
                for i in 0..n
                    invariant
                        n == p@.len(),
                        raws_seq_view(out@) =~= raws_seq_view(p@).take(i as int),
                {
                    let ghost prev = out@;
                    let item = p[i].duplicate();
                    assert(item@ == raws_seq_view(p@)[i as int]);
                    out.push(item);
                    assert(out@ =~= prev.push(item));
                    assert(forall|j: int|
                        0 <= j < out@.len() ==> raws_seq_view(out@)[j] == (#[trigger] out@[j])@);
                    assert(raws_seq_view(p@).take(i + 1) =~= raws_seq_view(p@).take(
                        i as int,
                    ).push(raws_seq_view(p@)[i as int]));
                    assert(raws_seq_view(out@) =~= raws_seq_view(p@).take(i + 1));
                }
                assert(raws_seq_view(p@).take(n as int) =~= raws_seq_view(p@));
                FetchOutcome::Page(out)
            },
        }
    }
}

/// The views of the fetch outcomes of one round.
pub open spec fn outcomes_view(s: Seq<FetchOutcome>) -> Seq<OutcomeView> {
    s.map_values(|o: FetchOutcome| o@)
}

/// The records one outcome contributes to a round.
pub open spec fn page_raws(o: OutcomeView) -> Set<RawNodeView> {
    match o {
        OutcomeView::Failure => Set::<RawNodeView>::empty(),
        OutcomeView::Page(p) => p.to_set(),
    }
}

/// The deduplicated wire records of one round: the union of its pages,
/// keyed by structural equality over the full wire tuple.
pub open spec fn round_raws(os: Seq<OutcomeView>) -> Set<RawNodeView>
    decreases os.len(),
{
    if os.len() == 0 {
        Set::<RawNodeView>::empty()
    } else {
        page_raws(os.first()).union(round_raws(os.drop_first()))
    }
}

/// The least creation time on a page (pages are non-empty where this is
/// used; ties are interchangeable since only the value matters).
pub open spec fn min_created(p: Seq<RawNodeView>) -> u64
    decreases p.len(),
{
    if p.len() <= 1 {
        p[0].created_utc
    } else {
        let m = min_created(p.drop_last());
        if p.last().created_utc < m {
            p.last().created_utc
        } else {
            m
        }
    }
}

/// The view of a query with its "before" cursor replaced by `t`.
pub open spec fn replaced_view(u: PsUrlView, t: u64) -> PsUrlView {
    let params = cursor_params(u.params, t);
    PsUrlView { base: u.base, params, href: url_string_of(u.base, params) }
}

/// Whether the `i`-th query of a round can be rebuilt: trivially where
/// nothing is rebuilt (a failed fetch or an empty page), and where a
/// non-empty page moves the cursor, exactly when the url library accepts
/// the rebuilt query.
pub open spec fn rebuild_ok_at(us: Seq<PsUrlView>, os: Seq<OutcomeView>, i: int) -> bool {
    match os[i] {
        OutcomeView::Failure => true,
        OutcomeView::Page(p) => p.len() == 0 || url_ok_of(
            us[i].base,
            cursor_params(us[i].params, min_created(p)),
        ),
    }
}

/// Whether every cursor rebuild of a round succeeds.
pub open spec fn rebuilds_ok(us: Seq<PsUrlView>, os: Seq<OutcomeView>) -> bool {
    forall|i: int| 0 <= i < us.len() ==> #[trigger] rebuild_ok_at(us, os, i)
}

/// The live queries after one round: a failed query stays unchanged, an
/// empty page retires its query, and a non-empty page keeps its query
/// live with the cursor moved to the page's least creation time.
pub open spec fn next_urls(us: Seq<PsUrlView>, os: Seq<OutcomeView>) -> Seq<PsUrlView>
    decreases us.len(),
{
    if us.len() == 0 {
        Seq::<PsUrlView>::empty()
    } else {
        let rest = next_urls(us.drop_first(), os.drop_first());
        match os[0] {
            OutcomeView::Failure => seq![us.first()] + rest,
            OutcomeView::Page(p) => if p.len() == 0 {
                rest
            } else {
                seq![replaced_view(us.first(), min_created(p))] + rest
            },
        }
    }
}

/// After a round keeps a query live off a non-empty page, the query's
/// next "before" cursor is exactly the page's least creation time.
pub proof fn lemma_replace_before_sets_cursor(u: PsUrlView, t: u64)
    requires
        crate::params::keys_unique(u.params),
    ensures
        crate::params::lookup(replaced_view(u, t).params, "before"@) == Some(
            crate::strutil::dec_str(t),
        ),
{
    let removed = crate::params::remove_key(u.params, "before"@);
    assert(!crate::params::has_key(removed, "before"@)) by {
        assert forall|i: int| 0 <= i < removed.len() implies (#[trigger] removed[i]).0
            != "before"@ by {
            u.params.lemma_filter_pred(crate::params::other_key_pred("before"@), i);
        }
    }
    crate::params::lemma_lookup_pushed(removed, "before"@, crate::strutil::dec_str(t));
}

/// Whether `author` is a sentinel for a deleted or automated account.
pub open spec fn is_junk_author(author: Seq<char>) -> bool {
    author == "[deleted]"@ || author == "AutoModerator"@
}

/// The predicate keeping the records worth storing.
pub open spec fn good_node_pred() -> spec_fn(NodeView) -> bool {
    |n: NodeView| !is_junk_author(n.author)
}

/// The projection from wire records to stored records.
pub open spec fn project_pred() -> spec_fn(RawNodeView) -> NodeView {
    |r: RawNodeView| node_of_raw(r)
}

/// The anonymizing transform on stored records.
pub open spec fn anonymize_pred() -> spec_fn(NodeView) -> NodeView {
    |n: NodeView| anonymize_node_spec(n)
}

/// The backoff after an empty round: squared, capped at the ceiling.
pub open spec fn next_backoff(b: u64) -> u64 {
    if b * b > MAX_BACKOFF {
        MAX_BACKOFF
    } else {
        (b * b) as u64
    }
}

/// The empty-round counter after an empty round: up by one, capped at
/// the exhaustion threshold.
pub open spec fn next_zls(z: u8) -> u8 {
    if z < DEFAULT_THRESH {
        (z + 1) as u8
    } else {
        z
    }
}

/// What a harvester looks like to specifications.
#[verifier::ext_equal]
pub struct ScraperView {
    pub backoff_time: u64,
    pub nodes: Set<NodeView>,
    pub urls: Seq<PsUrlView>,
    pub zero_length_scrapes: u8,
}

/// The views of the live queries.
pub open spec fn urls_view(s: Seq<PsUrl>) -> Seq<PsUrlView> {
    s.map_values(|u: PsUrl| u@)
}

/// The whole effect of one round on the harvest state.
pub open spec fn round_effect(v: ScraperView, os: Seq<OutcomeView>) -> ScraperView {
    let raws = round_raws(os);
    let empty_round = raws.len() == 0;
    ScraperView {
        backoff_time: if empty_round {
            next_backoff(v.backoff_time)
        } else {
            v.backoff_time
        },
        nodes: v.nodes.union(raws.map(project_pred())).filter(good_node_pred()),
        urls: next_urls(v.urls, os),
        zero_length_scrapes: if empty_round {
            next_zls(v.zero_length_scrapes)
        } else {
            0
        },
    }
}

/// Drives one harvest: the collected records, the live queries, the
/// politeness/backoff timer and the consecutive-empty-round counter.
#[derive(Debug)]
pub struct ScraperClient {
    backoff_time: u64,
    nodes: NodeSet,
    urls: Vec<PsUrl>,
    zero_length_scrapes: u8,
}

impl View for ScraperClient {
    type V = ScraperView;

    closed spec fn view(&self) -> ScraperView {
        ScraperView {
            backoff_time: self.backoff_time,
            nodes: self.nodes@,
            urls: urls_view(self.urls@),
            zero_length_scrapes: self.zero_length_scrapes,
        }
    }
}

impl ScraperClient {
    /// The stored records in insertion order (the order rows are saved
    /// in).
    pub closed spec fn nodes_seq(&self) -> Seq<NodeView> {
        self.nodes.as_seq()
    }

    /// Well-formedness: the record set holds no duplicates, every live
    /// query is well formed, and timer and counter sit within their
    /// bounds.
    pub open spec fn wf(&self) -> bool {
        &&& self.nodes_wf()
        &&& forall|i: int| 0 <= i < self@.urls.len() ==> wf_view(#[trigger] self@.urls[i])
        &&& self@.backoff_time <= MAX_BACKOFF
        &&& self@.zero_length_scrapes <= DEFAULT_THRESH
    }

    /// The record set is duplicate-free and matches its view.
    pub closed spec fn nodes_wf(&self) -> bool {
        self.nodes.wf()
    }

    /// A fresh harvester over `urls` with no records yet.
    pub fn new(urls: &Vec<PsUrl>) -> (r: ScraperClient)
        requires
            forall|i: int| 0 <= i < urls@.len() ==> (#[trigger] urls@[i]).wf(),
        ensures
            r.wf(),
            r@.backoff_time == DEFAULT_BACKOFF,
            r@.nodes =~= Set::<NodeView>::empty(),
            r@.urls == urls_view(urls@),
            r@.zero_length_scrapes == 0,
            r.nodes_seq() =~= Seq::<NodeView>::empty(),
    {
        ScraperClient {
            backoff_time: DEFAULT_BACKOFF,
            nodes: NodeSet::new(),
            urls: Self::duplicate_urls(urls),
            zero_length_scrapes: 0,
        }
    }

    /// A harvester resumed from saved rows: the records read from
    /// `csv_text` seed the set.
    pub fn from_csv(urls: &Vec<PsUrl>, csv_text: &str) -> (r: ScraperClient)
        requires
            forall|i: int| 0 <= i < urls@.len() ==> (#[trigger] urls@[i]).wf(),
        ensures
            r.wf(),
            r@.backoff_time == DEFAULT_BACKOFF,
            r@.nodes == load_spec(csv_text@).to_set(),
            r@.urls == urls_view(urls@),
            r@.zero_length_scrapes == 0,
    {
        ScraperClient {
            backoff_time: DEFAULT_BACKOFF,
            nodes: read_nodes(csv_text),
            urls: Self::duplicate_urls(urls),
            zero_length_scrapes: 0,
        }
    }

    /// Copies a query list.
    fn duplicate_urls(urls: &Vec<PsUrl>) -> (r: Vec<PsUrl>)
        ensures
            urls_view(r@) == urls_view(urls@),
    {
        let n = urls.len();
        let mut out: Vec<PsUrl> = Vec::new();
        for i in 0..n
            invariant
                n == urls@.len(),
                urls_view(out@) =~= urls_view(urls@).take(i as int),
        {
            let ghost prev = out@;
            let item = urls[i].duplicate();
            assert(item@ == urls_view(urls@)[i as int]);
            out.push(item);
            assert(out@ =~= prev.push(item));
            assert(forall|j: int| 0 <= j < out@.len() ==> urls_view(out@)[j] == (
            #[trigger] out@[j])@);
            assert(urls_view(urls@).take(i + 1) =~= urls_view(urls@).take(i as int).push(
                urls_view(urls@)[i as int],
            ));
            assert(urls_view(out@) =~= urls_view(urls@).take(i + 1));
        }
        assert(urls_view(urls@).take(n as int) =~= urls_view(urls@));
        out
    }

    /// Writes the record set as rows.
    pub fn to_csv(&self) -> (r: String)
        requires
            self.nodes_wf(),
        ensures
            r@ == save_spec(self.nodes_seq()),
    {
        write_nodes(&self.nodes)
    }

    /// How many records are stored.
    pub fn length_nodes(&self) -> (r: usize)
        requires
            self.nodes_wf(),
        ensures
            r == self@.nodes.len(),
    {
        self.nodes.len()
    }

    /// The stored records.
    pub fn view_nodes(&self) -> (r: &NodeSet)
        ensures
            r@ == self@.nodes,
    {
        &self.nodes
    }

    /// The current backoff, in seconds: how long the driver should sleep
    /// between fetches.
    pub fn backoff_time(&self) -> (r: u64)
        ensures
            r == self@.backoff_time,
    {
        self.backoff_time
    }

    /// How many consecutive rounds yielded nothing.
    pub fn zero_length_scrapes(&self) -> (r: u8)
        ensures
            r == self@.zero_length_scrapes,
    {
        self.zero_length_scrapes
    }

    /// Whether the source is exhausted: the consecutive-empty-round
    /// counter has reached the threshold.
    pub fn exhausted(&self) -> (r: bool)
        ensures
            r == (self@.zero_length_scrapes >= DEFAULT_THRESH),
    {
        self.zero_length_scrapes >= DEFAULT_THRESH
    }

    /// The live queries.
    pub fn urls(&self) -> (r: &Vec<PsUrl>)
        ensures
            urls_view(r@) == self@.urls,
    {
        &self.urls
    }

    /// The record set stays finite.
    pub proof fn lemma_nodes_finite(&self)
        ensures
            self@.nodes.finite(),
    {
        self.nodes.lemma_view_is_seq();
        seq_to_set_is_finite::<NodeView>(self.nodes.as_seq());
    }
}

impl ScraperClient {
    /// Squares the backoff timer, capped at the ceiling, after a round
    /// that yielded nothing. The cap keeps the intended at-most-one-
    /// minute promise: taking the larger of the square and the ceiling
    /// would instead grow the timer without bound once it passed eight
    /// seconds.
    fn exponential_backoff(&mut self)
        requires
            old(self)@.backoff_time <= MAX_BACKOFF,
        ensures
            final(self)@.backoff_time == next_backoff(old(self)@.backoff_time),
            final(self)@.nodes == old(self)@.nodes,
            final(self)@.urls == old(self)@.urls,
            final(self)@.zero_length_scrapes == old(self)@.zero_length_scrapes,
            final(self).nodes_wf() == old(self).nodes_wf(),
            final(self).nodes_seq() == old(self).nodes_seq(),
    {
        let b = self.backoff_time;
        assert(b * b <= MAX_BACKOFF * MAX_BACKOFF) by (nonlinear_arith)
            requires
                b <= MAX_BACKOFF,
        ;
        let sq = b * b;
        self.backoff_time = if sq > MAX_BACKOFF {
            MAX_BACKOFF
        } else {
            sq
        };
    }

    /// Replaces every record by its anonymized form: authors and topic
    /// identifiers become digests. One-way; meant to run once, right
    /// before persisting.
    pub fn hash_names(&mut self)
        requires
            old(self).wf(),
        ensures
            final(self).wf(),
            final(self)@.nodes == old(self)@.nodes.map(anonymize_pred()),
            final(self)@.backoff_time == old(self)@.backoff_time,
            final(self)@.urls == old(self)@.urls,
            final(self)@.zero_length_scrapes == old(self)@.zero_length_scrapes,
    {
        let ghost s = self.nodes.as_seq();
        let n = self.nodes.len();
        let mut fresh = NodeSet::new();
        assert(s.take(0).map_values(anonymize_pred()) =~= Seq::<NodeView>::empty());
        for i in 0..n
            invariant
                self.nodes == old(self).nodes,
                self.nodes_wf(),
                s == self.nodes.as_seq(),
                n == s.len(),
                fresh.wf(),
                fresh@ == s.take(i as int).map_values(anonymize_pred()).to_set(),
        {
            let node = self.nodes.get(i);
            let anon = anonymize_node(node);
            proof {
                assert(anon@ == anonymize_pred()(s[i as int]));
                lemma_to_set_push(
                    s.take(i as int).map_values(anonymize_pred()),
                    anonymize_pred()(s[i as int]),
                );
                assert(s.take(i + 1).map_values(anonymize_pred()) =~= s.take(
                    i as int,
                ).map_values(anonymize_pred()).push(anonymize_pred()(s[i as int])));
            }
            fresh.insert(anon);
            assert(fresh@ =~= s.take(i + 1).map_values(anonymize_pred()).to_set());
        }
        proof {
            assert(s.take(n as int) =~= s);
            s.lemma_to_set_map_commutes(anonymize_pred());
            self.nodes.lemma_view_is_seq();
            assert(fresh@ =~= old(self)@.nodes.map(anonymize_pred()));
        }
        self.nodes = fresh;
        proof {
            assert(self@.urls == old(self)@.urls);
            assert(forall|k: int|
                0 <= k < self@.urls.len() ==> wf_view(#[trigger] self@.urls[k]));
        }
    }

    /// Removes every record whose author is a sentinel for a deleted or
    /// automated account, and nothing else.
    pub fn filter_junk(&mut self)
        requires
            old(self).wf(),
        ensures
            final(self).wf(),
            final(self)@.nodes == old(self)@.nodes.filter(good_node_pred()),
            final(self)@.backoff_time == old(self)@.backoff_time,
            final(self)@.urls == old(self)@.urls,
            final(self)@.zero_length_scrapes == old(self)@.zero_length_scrapes,
    {
        let ghost s = self.nodes.as_seq();
        let ghost pred = good_node_pred();
        let n = self.nodes.len();
        let mut fresh = NodeSet::new();
        proof {
            reveal(Seq::filter);
            assert(s.take(0).filter(pred) =~= Seq::<NodeView>::empty());
        }
        for i in 0..n
            invariant
                pred == good_node_pred(),
                self.nodes == old(self).nodes,
                self.nodes_wf(),
                s == self.nodes.as_seq(),
                n == s.len(),
                fresh.wf(),
                fresh@ == s.take(i as int).filter(pred).to_set(),
        {
            proof {
                reveal(Seq::filter);
                assert(s.take(i + 1).drop_last() =~= s.take(i as int));
                assert(s.take(i + 1).last() == s[i as int]);
            }
            let node = self.nodes.get(i);
            let junk = str_eq(node.author.as_str(), "[deleted]") || str_eq(
                node.author.as_str(),
                "AutoModerator",
            );
            assert(junk == is_junk_author(s[i as int].author));
            if !junk {
                proof {
                    assert(pred(s[i as int]));
                    lemma_to_set_push(s.take(i as int).filter(pred), s[i as int]);
                    assert(s.take(i + 1).filter(pred) =~= s.take(i as int).filter(pred).push(
                        s[i as int],
                    ));
                }
                fresh.insert(node.duplicate());
                assert(fresh@ =~= s.take(i + 1).filter(pred).to_set());
            } else {
                assert(!pred(s[i as int]));
                assert(s.take(i + 1).filter(pred) =~= s.take(i as int).filter(pred));
            }
        }
        proof {
            assert(s.take(n as int) =~= s);
            lemma_filter_to_set(s, pred);
            self.nodes.lemma_view_is_seq();
            assert(fresh@ =~= old(self)@.nodes.filter(pred));
        }
        self.nodes = fresh;
        proof {
            assert(self@.urls == old(self)@.urls);
            assert(forall|k: int|
                0 <= k < self@.urls.len() ==> wf_view(#[trigger] self@.urls[k]));
        }
    }

    /// Merges records fetched elsewhere into the stored set, with the
    /// usual value-keyed deduplication.
    pub fn extend_nodes(&mut self, more: &Vec<Node>)
        requires
            old(self).wf(),
        ensures
            final(self).wf(),
            final(self)@.nodes == old(self)@.nodes.union(nodes_seq_view(more@).to_set()),
            final(self)@.backoff_time == old(self)@.backoff_time,
            final(self)@.urls == old(self)@.urls,
            final(self)@.zero_length_scrapes == old(self)@.zero_length_scrapes,
    {
        let ghost ms = nodes_seq_view(more@);
        let n = more.len();
        assert(old(self)@.nodes.union(ms.take(0).to_set()) =~= old(self)@.nodes);
        for i in 0..n
            invariant
                ms == nodes_seq_view(more@),
                n == more@.len(),
                self.nodes_wf(),
                self@.nodes == old(self)@.nodes.union(ms.take(i as int).to_set()),
                self@.backoff_time == old(self)@.backoff_time,
                self@.urls == old(self)@.urls,
                self@.zero_length_scrapes == old(self)@.zero_length_scrapes,
                forall|k: int| 0 <= k < self@.urls.len() ==> wf_view(#[trigger] self@.urls[k]),
                self@.backoff_time <= MAX_BACKOFF,
                self@.zero_length_scrapes <= DEFAULT_THRESH,
        {
            let item = more[i].duplicate();
            proof {
                assert(item@ == ms[i as int]);
                lemma_to_set_push(ms.take(i as int), ms[i as int]);
                assert(ms.take(i + 1) =~= ms.take(i as int).push(ms[i as int]));
            }
            self.nodes.insert(item);
            assert(self@.nodes =~= old(self)@.nodes.union(ms.take(i + 1).to_set()));
        }
        assert(ms.take(n as int) =~= ms);
    }
}

/// The per-user listing URL for an author.
pub open spec fn user_url_of(author: Seq<char>) -> Seq<char> {
    "https://reddit.com/user/"@ + author + ".json"@
}

/// Whether `out` already holds the listing URL for `author`.
pub open spec fn has_user_url(out: Seq<String>, author: Seq<char>) -> bool {
    exists|j: int| 0 <= j < out.len() && (#[trigger] out[j])@ == user_url_of(author)
}

/// Whether position `j` of `out` is the listing URL of some stored
/// record's author.
pub open spec fn url_of_some_author(out: Seq<String>, nodes: Set<NodeView>, j: int) -> bool {
    exists|nv: NodeView| nodes.contains(nv) && out[j]@ == user_url_of(nv.author)
}

/// Whether some string of `v` reads `s`.
fn contains_str(v: &Vec<String>, s: &str) -> (r: bool)
    ensures
        r == exists|j: int| 0 <= j < v@.len() && (#[trigger] v@[j])@ == s@,
{
    let n = v.len();
    for i in 0..n
        invariant
            n == v@.len(),
            forall|j: int| 0 <= j < i ==> (#[trigger] v@[j])@ != s@,
    {
        if str_eq(v[i].as_str(), s) {
            return true;
        }
    }
    false
}

impl ScraperClient {
    /// One listing URL per distinct author among the stored records, for
    /// the snowball sweep over individual users.
    pub fn user_urls(&self) -> (r: Vec<String>)
        requires
            self.nodes_wf(),
        ensures
            forall|j: int| 0 <= j < r@.len() ==> #[trigger] url_of_some_author(r@, self@.nodes, j),
            forall|nv: NodeView| #[trigger]
                self@.nodes.contains(nv) ==> has_user_url(r@, nv.author),
            forall|j1: int, j2: int|
                0 <= j1 < j2 < r@.len() ==> (#[trigger] r@[j1])@ != (#[trigger] r@[j2])@,
    {
        let ghost s = self.nodes.as_seq();
        proof {
            self.nodes.lemma_view_is_seq();
        }
        let n = self.nodes.len();
        let mut out: Vec<String> = Vec::new();
        let mut i: usize = 0;
        while i < n
            invariant
                i <= n,
                self.nodes_wf(),
                s == self.nodes.as_seq(),
                n == s.len(),
                forall|j: int|
                    0 <= j < out@.len() ==> exists|k: int|
                        0 <= k < s.len() && (#[trigger] out@[j])@ == user_url_of(s[k].author),
                forall|k: int| 0 <= k < i ==> has_user_url(out@, #[trigger] s[k].author),
                forall|j1: int, j2: int|
                    0 <= j1 < j2 < out@.len() ==> (#[trigger] out@[j1])@ != (#[trigger] out@[j2])@,
            decreases n - i,
        {
            let node = self.nodes.get(i);
            let mut url = String::new();
            url.append("https://reddit.com/user/");
            url.append(node.author.as_str());
            url.append(".json");
            assert(url@ =~= user_url_of(s[i as int].author));
            let ghost prev = out@;
            if !contains_str(&out, url.as_str()) {
                out.push(url);
                proof {
                    assert(out@[prev.len() as int]@ == user_url_of(s[i as int].author));
                    assert forall|j: int| 0 <= j < out@.len() implies exists|k: int|
                        0 <= k < s.len() && (#[trigger] out@[j])@ == user_url_of(s[k].author) by {
                        if j < prev.len() {
                            assert(out@[j] == prev[j]);
                            let k0 = choose|k0: int|
                                0 <= k0 < s.len() && (#[trigger] prev[j])@ == user_url_of(
                                    s[k0].author,
                                );
                            assert(out@[j]@ == user_url_of(s[k0].author));
                        } else {
                            assert(out@[j]@ == user_url_of(s[i as int].author));
                        }
                    }
                    assert forall|k: int| 0 <= k < i + 1 implies has_user_url(
                        out@,
                        #[trigger] s[k].author,
                    ) by {
                        if k < i {
                            let j = choose|j: int|
                                0 <= j < prev.len() && (#[trigger] prev[j])@ == user_url_of(
                                    s[k].author,
                                );
                            assert(out@[j]@ == user_url_of(s[k].author));
                        } else {
                            assert(out@[prev.len() as int]@ == user_url_of(s[k].author));
                        }
                    }
                }
            } else {
                proof {
                    assert forall|k: int| 0 <= k < i + 1 implies has_user_url(
                        out@,
                        #[trigger] s[k].author,
                    ) by {
                        if k == i {
                            let j = choose|j: int|
                                0 <= j < out@.len() && (#[trigger] out@[j])@ == url@;
                            assert(out@[j]@ == user_url_of(s[k].author));
                        }
                    }
                }
            }
            i = i + 1;
        }
        proof {
            assert forall|nv: NodeView| #[trigger]
                self@.nodes.contains(nv) implies has_user_url(out@, nv.author) by {
                assert(s.to_set().contains(nv));
                assert(s.contains(nv));
                let k = choose|k: int| 0 <= k < s.len() && s[k] == nv;
            }
            assert forall|j: int| 0 <= j < out@.len() implies #[trigger] url_of_some_author(
                out@,
                self@.nodes,
                j,
            ) by {
                let k = choose|k: int|
                    0 <= k < s.len() && (#[trigger] out@[j])@ == user_url_of(s[k].author);
                assert(s.contains(s[k]));
                assert(s.to_set().contains(s[k]));
                assert(self@.nodes.contains(s[k]) && out@[j]@ == user_url_of(s[k].author));
            }
        }
        out
    }
}

/// The least creation time on a non-empty page.
fn min_created_exec(p: &Vec<RawNode>) -> (r: u64)
    requires
        p@.len() > 0,
    ensures
        r == min_created(raws_seq_view(p@)),
{
    let ghost pv = raws_seq_view(p@);
    let n = p.len();
    let mut m = p[0].created_utc;
    assert(pv.take(1)[0] == pv[0]);
    assert(m == min_created(pv.take(1)));
    for j in 1..n
        invariant
            pv == raws_seq_view(p@),
            n == pv.len(),
            1 <= j <= n,
            m == min_created(pv.take(j as int)),
    {
        proof {
            assert(pv.take(j + 1).drop_last() =~= pv.take(j as int));
            assert(pv.take(j + 1).last() == pv[j as int]);
            assert(pv[j as int] == p@[j as int]@);
        }
        if p[j].created_utc < m {
            m = p[j].created_utc;
        }
    }
    assert(pv.take(n as int) =~= pv);
    m
}

/// Whether a structurally equal wire record is already collected.
fn contains_raw(v: &Vec<RawNode>, x: &RawNode) -> (r: bool)
    ensures
        r == raws_seq_view(v@).contains(x@),
{
    let n = v.len();
    for i in 0..n
        invariant
            n == v@.len(),
            forall|j: int| 0 <= j < i ==> #[trigger] raws_seq_view(v@)[j] != x@,
    {
        if v[i] == *x {
            assert(raws_seq_view(v@)[i as int] == x@);
            return true;
        }
    }
    proof {
        if raws_seq_view(v@).contains(x@) {
            let j = choose|j: int|
                0 <= j < raws_seq_view(v@).len() && raws_seq_view(v@)[j] == x@;
        }
    }
    false
}

impl ScraperClient {
    /// Applies one round, one fetch outcome per live query, in order: a
    /// failed fetch keeps its query for the next round, an empty page
    /// retires its query, and a non-empty page moves its query's cursor
    /// to the page's least creation time. The round's records are
    /// deduplicated on the full wire tuple, projected, merged into the
    /// stored set and junk-filtered; an empty round bumps the counter
    /// and the backoff. Returns how many distinct wire records the round
    /// produced. Fails, changing nothing, only when a cursor rebuild
    /// fails to parse; no fetch failure is ever fatal.
    pub fn scrape_nodes(&mut self, outcomes: &Vec<FetchOutcome>) -> (r: Result<usize, PSError>)
        requires
            old(self).wf(),
            outcomes@.len() == old(self)@.urls.len(),
        ensures
            final(self).wf(),
            r is Ok <==> rebuilds_ok(old(self)@.urls, outcomes_view(outcomes@)),
            r matches Err(e) ==> final(self)@ == old(self)@ && (e matches PSError::Parse(_)),
            r matches Ok(count) ==> {
                &&& final(self)@ == round_effect(old(self)@, outcomes_view(outcomes@))
                &&& count == round_raws(outcomes_view(outcomes@)).len()
            },
    {
        let ghost os = outcomes_view(outcomes@);
        let ghost us = old(self)@.urls;
        let n = self.urls.len();
        let mut raws: Vec<RawNode> = Vec::new();
        let mut new_urls: Vec<PsUrl> = Vec::new();
        proof {
            assert(us.skip(0) =~= us);
            assert(os.skip(0) =~= os);
            assert(urls_view(new_urls@) + next_urls(us, os) =~= next_urls(us, os));
            assert(raws_seq_view(raws@).to_set().union(round_raws(os)) =~= round_raws(os));
        }
        for i in 0..n
            invariant
                self == old(self),
                old(self).wf(),
                os == outcomes_view(outcomes@),
                us == old(self)@.urls,
                n == us.len(),
                n == os.len(),
                urls_view(new_urls@) + next_urls(us.skip(i as int), os.skip(i as int)) =~= next_urls(
                    us,
                    os,
                ),
                forall|k: int| 0 <= k < new_urls@.len() ==> wf_view((#[trigger] new_urls@[k])@),
                forall|k: int| 0 <= k < i ==> #[trigger] rebuild_ok_at(us, os, k),
                raws_seq_view(raws@).no_duplicates(),
                raws_seq_view(raws@).to_set().union(round_raws(os.skip(i as int))) =~= round_raws(
                    os,
                ),
        {
            proof {
                assert(us.skip(i as int).first() == us[i as int]);
                assert(us.skip(i as int).drop_first() =~= us.skip(i + 1));
                assert(os.skip(i as int).first() == os[i as int]);
                assert(os.skip(i as int).drop_first() =~= os.skip(i + 1));
                assert(os[i as int] == outcomes@[i as int]@);
                assert(us[i as int] == urls_view(old(self).urls@)[i as int]);
            }
            let ghost prev_urls = urls_view(new_urls@);
            let ghost prev_raws = raws_seq_view(raws@).to_set();
            match &outcomes[i] {
                FetchOutcome::Failure => {
                    let kept = self.urls[i].duplicate();
                    assert(kept@ == us[i as int]);
                    assert(wf_view(us[i as int]));
                    new_urls.push(kept);
                    proof {
                        assert(urls_view(new_urls@) =~= prev_urls.push(us[i as int]));
                        assert(next_urls(us.skip(i as int), os.skip(i as int)) =~= seq![
                            us[i as int],
                        ] + next_urls(us.skip(i + 1), os.skip(i + 1)));
                        assert(prev_urls.push(us[i as int]) + next_urls(
                            us.skip(i + 1),
                            os.skip(i + 1),
                        ) =~= prev_urls + next_urls(us.skip(i as int), os.skip(i as int)));
                        assert(page_raws(os[i as int]) =~= Set::<RawNodeView>::empty());
                        assert(round_raws(os.skip(i as int)) =~= round_raws(os.skip(i + 1)));
                        assert(rebuild_ok_at(us, os, i as int));
                    }
                },
                FetchOutcome::Page(p) => {
                    let ghost pv = raws_seq_view(p@);
                    proof {
                        assert(os[i as int] == OutcomeView::Page(pv));
                        assert(round_raws(os.skip(i as int)) =~= page_raws(os[i as int]).union(
                            round_raws(os.skip(i + 1)),
                        ));
                    }
                    if p.len() == 0 {
                        proof {
                            assert(pv =~= Seq::<RawNodeView>::empty());
                            assert(pv.to_set() =~= Set::<RawNodeView>::empty());
                            assert(next_urls(us.skip(i as int), os.skip(i as int)) =~= next_urls(
                                us.skip(i + 1),
                                os.skip(i + 1),
                            ));
                            assert(round_raws(os.skip(i as int)) =~= round_raws(os.skip(i + 1)));
                            assert(rebuild_ok_at(us, os, i as int));
                        }
                    } else {
                        let t = min_created_exec(p);
                        assert(wf_view(us[i as int])) by {
                            assert(self@.urls[i as int] == us[i as int]);
                        }
                        let rebuilt = match self.urls[i].replace_before(t) {
                            Ok(u) => u,
                            Err(e) => {
                                proof {
                                    assert(!url_ok_of(
                                        us[i as int].base,
                                        cursor_params(us[i as int].params, min_created(pv)),
                                    ));
                                    assert(!rebuild_ok_at(us, os, i as int));
                                    assert(!rebuilds_ok(us, os));
                                }
                                return Err(e);
                            },
                        };
                        proof {
                            assert(rebuilt@ == replaced_view(us[i as int], min_created(pv)));
                            assert(rebuild_ok_at(us, os, i as int));
                        }
                        new_urls.push(rebuilt);
                        proof {
                            assert(urls_view(new_urls@) =~= prev_urls.push(
                                replaced_view(us[i as int], min_created(pv)),
                            ));
                            assert(next_urls(us.skip(i as int), os.skip(i as int)) =~= seq![
                                replaced_view(us[i as int], min_created(pv)),
                            ] + next_urls(us.skip(i + 1), os.skip(i + 1)));
                            assert(prev_urls.push(replaced_view(us[i as int], min_created(pv)))
                                + next_urls(us.skip(i + 1), os.skip(i + 1)) =~= prev_urls
                                + next_urls(us.skip(i as int), os.skip(i as int)));
                        }
                        let m = p.len();
                        proof {
                            assert(prev_raws.union(pv.take(0).to_set()) =~= prev_raws);
                        }
                        for j in 0..m
                            invariant
                                pv == raws_seq_view(p@),
                                m == pv.len(),
                                raws_seq_view(raws@).no_duplicates(),
                                raws_seq_view(raws@).to_set() =~= prev_raws.union(
                                    pv.take(j as int).to_set(),
                                ),
                        {
                            proof {
                                assert(pv[j as int] == p@[j as int]@);
                                lemma_to_set_push(pv.take(j as int), pv[j as int]);
                                assert(pv.take(j + 1) =~= pv.take(j as int).push(pv[j as int]));
                            }
                            if !contains_raw(&raws, &p[j]) {
                                let ghost before = raws_seq_view(raws@);
                                let item = p[j].duplicate();
                                assert(item@ == pv[j as int]);
                                raws.push(item);
                                proof {
                                    assert(raws_seq_view(raws@) =~= before.push(pv[j as int]));
                                    lemma_to_set_push(before, pv[j as int]);
                                    assert(!before.contains(pv[j as int]));
                                    assert(raws_seq_view(raws@).no_duplicates()) by {
                                        let sq = raws_seq_view(raws@);
                                        assert forall|a: int, b: int|
                                            0 <= a < b < sq.len() implies sq[a] != sq[b] by {
                                            if b == sq.len() - 1 {
                                                assert(before[a] == sq[a]);
                                                if sq[a] == pv[j as int] {
                                                    assert(before.contains(pv[j as int]));
                                                }
                                            }
                                        }
                                    }
                                    assert(raws_seq_view(raws@).to_set() =~= prev_raws.union(
                                        pv.take(j + 1).to_set(),
                                    ));
                                }
                            } else {
                                proof {
                                    assert(raws_seq_view(raws@).to_set().contains(pv[j as int]));
                                    assert(raws_seq_view(raws@).to_set() =~= prev_raws.union(
                                        pv.take(j + 1).to_set(),
                                    ));
                                }
                            }
                        }
                        proof {
                            assert(pv.take(m as int) =~= pv);
                            assert(page_raws(os[i as int]) =~= pv.to_set());
                            assert(raws_seq_view(raws@).to_set().union(round_raws(os.skip(i + 1)))
                                =~= prev_raws.union(round_raws(os.skip(i as int))));
                            assert(prev_raws.union(round_raws(os.skip(i as int))) =~= round_raws(
                                os,
                            ));
                        }
                    }
                },
            }
        }
        proof {
            assert(rebuilds_ok(us, os));
            assert(us.skip(n as int) =~= Seq::<PsUrlView>::empty());
            assert(os.skip(n as int) =~= Seq::<OutcomeView>::empty());
            assert(next_urls(us.skip(n as int), os.skip(n as int)) =~= Seq::<PsUrlView>::empty());
            assert(urls_view(new_urls@) =~= next_urls(us, os));
            assert(round_raws(os.skip(n as int)) =~= Set::<RawNodeView>::empty());
            assert(raws_seq_view(raws@).to_set() =~= round_raws(os));
        }
        self.urls = new_urls;
        proof {
            assert(forall|x: int|
                0 <= x < self@.urls.len() ==> wf_view(#[trigger] self@.urls[x])) by {
                assert(forall|x: int|
                    0 <= x < new_urls@.len() ==> self@.urls[x] == (#[trigger] new_urls@[x])@);
            }
            assert(self@.urls == next_urls(old(self)@.urls, os));
        }
        let count = raws.len();
        proof {
            raws_seq_view(raws@).unique_seq_to_set();
        }
        let ghost rv = raws_seq_view(raws@);
        let k = raws.len();
        proof {
            assert(old(self)@.nodes.union(rv.take(0).map_values(project_pred()).to_set())
                =~= old(self)@.nodes);
        }
        for j in 0..k
            invariant
                os == outcomes_view(outcomes@),
                rv == raws_seq_view(raws@),
                k == rv.len(),
                self.nodes_wf(),
                self@.nodes == old(self)@.nodes.union(
                    rv.take(j as int).map_values(project_pred()).to_set(),
                ),
                self@.urls == next_urls(old(self)@.urls, os),
                self@.backoff_time == old(self)@.backoff_time,
                self@.zero_length_scrapes == old(self)@.zero_length_scrapes,
                forall|x: int| 0 <= x < self@.urls.len() ==> wf_view(#[trigger] self@.urls[x]),
                self@.backoff_time <= MAX_BACKOFF,
                self@.zero_length_scrapes <= DEFAULT_THRESH,
        {
            let node = Node::from_raw(&raws[j]);
            proof {
                assert(node@ == project_pred()(rv[j as int]));
                lemma_to_set_push(
                    rv.take(j as int).map_values(project_pred()),
                    project_pred()(rv[j as int]),
                );
                assert(rv.take(j + 1).map_values(project_pred()) =~= rv.take(
                    j as int,
                ).map_values(project_pred()).push(project_pred()(rv[j as int])));
            }
            self.nodes.insert(node);
            assert(self@.nodes =~= old(self)@.nodes.union(
                rv.take(j + 1).map_values(project_pred()).to_set(),
            ));
        }
        proof {
            assert(rv.take(k as int) =~= rv);
            rv.lemma_to_set_map_commutes(project_pred());
            assert(self@.nodes =~= old(self)@.nodes.union(round_raws(os).map(project_pred())));
        }
        assert(self.wf());
        self.filter_junk();
        if count == 0 {
            let z = self.zero_length_scrapes;
            self.zero_length_scrapes = if z < DEFAULT_THRESH {
                z + 1
            } else {
                z
            };
            self.exponential_backoff();
        } else {
            self.zero_length_scrapes = 0;
        }
        proof {
            assert(self@ =~= round_effect(old(self)@, os));
        }
        Ok(count)
    }
}

/// Fetch outcomes padded or cut to one per live query; a missing outcome
/// counts as a failed fetch.
pub open spec fn pad_outcomes(os: Seq<OutcomeView>, n: nat) -> Seq<OutcomeView> {
    Seq::new(
        n,
        |j: int|
            if j < os.len() {
                os[j]
            } else {
                OutcomeView::Failure
            },
    )
}

/// A round of failed fetches yields no records.
proof fn lemma_round_raws_failures(os: Seq<OutcomeView>)
    requires
        forall|j: int| 0 <= j < os.len() ==> (#[trigger] os[j]) is Failure,
    ensures
        round_raws(os) == Set::<RawNodeView>::empty(),
    decreases os.len(),
{
    if os.len() > 0 {
        assert(forall|j: int|
            0 <= j < os.drop_first().len() ==> (#[trigger] os.drop_first()[j]) is Failure);
        lemma_round_raws_failures(os.drop_first());
        assert(page_raws(os.first()) =~= Set::<RawNodeView>::empty());
        assert(round_raws(os) =~= Set::<RawNodeView>::empty());
    }
}

/// A round's deduplicated record set is finite.
pub proof fn lemma_round_raws_finite(os: Seq<OutcomeView>)
    ensures
        round_raws(os).finite(),
    decreases os.len(),
{
    broadcast use vstd::seq_lib::seq_to_set_is_finite;

    if os.len() > 0 {
        lemma_round_raws_finite(os.drop_first());
        match os.first() {
            OutcomeView::Failure => {},
            OutcomeView::Page(p) => {
                assert(p.to_set().finite());
            },
        }
    }
}

/// The views of a script of rounds.
pub open spec fn rounds_views(s: Seq<Vec<FetchOutcome>>) -> Seq<Seq<OutcomeView>> {
    s.map_values(|v: Vec<FetchOutcome>| outcomes_view(v@))
}

/// How a harvest run ends.
pub enum RunOutcome {
    /// The record count reached the target.
    Complete,
    /// The consecutive-empty-round threshold was reached first.
    Exhausted,
    /// A kept query's cursor could not be rebuilt into an accepted URL;
    /// the round changed nothing.
    CursorFailed,
}

/// One whole harvest over a script of rounds, one scripted round at a
/// time; rounds past the script's end count as all-failed fetches. Stops
/// with success once the record count reaches `limit`, with exhaustion
/// once an empty round leaves the counter at the threshold, and with a
/// cursor failure — the state untouched by that round — where the url
/// library rejects a rebuilt query.
pub open spec fn run_rounds(v: ScraperView, rounds: Seq<Seq<OutcomeView>>, limit: int) -> (
    ScraperView,
    RunOutcome,
)
    decreases
            rounds.len(),
            (if v.zero_length_scrapes < DEFAULT_THRESH {
                DEFAULT_THRESH - v.zero_length_scrapes
            } else {
                0
            }),
    via run_rounds_decreases
{
    if v.nodes.len() >= limit {
        (v, RunOutcome::Complete)
    } else {
        let script: Seq<OutcomeView> = if rounds.len() == 0 {
            Seq::empty()
        } else {
            rounds.first()
        };
        let os = pad_outcomes(script, v.urls.len() as nat);
        if !rebuilds_ok(v.urls, os) {
            (v, RunOutcome::CursorFailed)
        } else {
            let after = round_effect(v, os);
            let rest: Seq<Seq<OutcomeView>> = if rounds.len() == 0 {
                rounds
            } else {
                rounds.drop_first()
            };
            if round_raws(os).len() == 0 && after.zero_length_scrapes >= DEFAULT_THRESH {
                (after, RunOutcome::Exhausted)
            } else {
                run_rounds(after, rest, limit)
            }
        }
    }
}

#[via_fn]
proof fn run_rounds_decreases(v: ScraperView, rounds: Seq<Seq<OutcomeView>>, limit: int) {
    if v.nodes.len() < limit && rounds.len() == 0 {
        let os = pad_outcomes(Seq::empty(), v.urls.len() as nat);
        assert(forall|j: int| 0 <= j < os.len() ==> (#[trigger] os[j]) is Failure);
        lemma_round_raws_failures(os);
    }
}

impl ScraperClient {
    /// Harvests round by round until the record count reaches
    /// `node_limit`; rounds come from `rounds` in order, and once the
    /// script runs out every fetch counts as failed, so a finite script
    /// always ends. Result and final state are exactly what `run_rounds`
    /// gives: success iff the target is reached, `NoMoreNodes` iff an
    /// empty round leaves the counter at the threshold first, and a
    /// parse error iff a cursor rebuild is rejected first, leaving the
    /// state as it stood before that round.
    pub fn scrape_until(&mut self, node_limit: usize, rounds: &Vec<Vec<FetchOutcome>>) -> (r:
        Result<(), PSError>)
        requires
            old(self).wf(),
        ensures
            final(self).wf(),
            final(self)@ == run_rounds(old(self)@, rounds_views(rounds@), node_limit as int).0,
            r is Ok <==> run_rounds(old(self)@, rounds_views(rounds@), node_limit as int).1
                is Complete,
            r matches Err(PSError::NoMoreNodes) <==> run_rounds(
                old(self)@,
                rounds_views(rounds@),
                node_limit as int,
            ).1 is Exhausted,
            r matches Err(PSError::Parse(_)) <==> run_rounds(
                old(self)@,
                rounds_views(rounds@),
                node_limit as int,
            ).1 is CursorFailed,
            r matches Ok(()) ==> final(self)@.nodes.len() >= node_limit,
            r matches Err(e) ==> final(self)@.nodes.len() < node_limit && (e matches
                PSError::NoMoreNodes || e matches PSError::Parse(_)),
    {
        let ghost all = rounds_views(rounds@);
        let ghost limit = node_limit as int;
        let mut i: usize = 0;
        let ghost mut left = all;
        loop
            invariant
                self.wf(),
                all == rounds_views(rounds@),
                limit == node_limit as int,
                i <= rounds@.len(),
                i < rounds@.len() ==> left == all.skip(i as int),
                i >= rounds@.len() ==> left == Seq::<Seq<OutcomeView>>::empty(),
                run_rounds(old(self)@, all, limit) == run_rounds(self@, left, limit),
            decreases
                    left.len(),
                    (if self@.zero_length_scrapes < DEFAULT_THRESH {
                        DEFAULT_THRESH - self@.zero_length_scrapes
                    } else {
                        0
                    }),
        {
            let ghost left_at_top = left;
            proof {
                self.lemma_nodes_finite();
            }
            let stored = self.length_nodes();
            if stored >= node_limit {
                proof {
                    assert(run_rounds(self@, left, limit) == (self@, RunOutcome::Complete));
                }
                return Ok(());
            }
            let ghost at_top = self@;
            let ghost script: Seq<OutcomeView> = if left.len() == 0 {
                Seq::empty()
            } else {
                left.first()
            };
            let m = self.urls.len();
            let ghost padded = pad_outcomes(script, m as nat);
            let mut outcomes: Vec<FetchOutcome> = Vec::new();
            assert(outcomes_view(outcomes@) =~= padded.take(0));
            proof {
                if i < rounds@.len() {
                    assert(left.first() == all[i as int]);
                    assert(all[i as int] == outcomes_view(rounds@[i as int]@));
                }
            }
            for j in 0..m
                invariant
                    all == rounds_views(rounds@),
                    i <= rounds@.len(),
                    padded == pad_outcomes(script, m as nat),
                    i < rounds@.len() ==> script == outcomes_view(rounds@[i as int]@),
                    i >= rounds@.len() ==> script == Seq::<OutcomeView>::empty(),
                    outcomes_view(outcomes@) =~= padded.take(j as int),
            {
                proof {
                    if j < script.len() {
                        assert(padded[j as int] == script[j as int]);
                    } else {
                        assert(padded[j as int] == OutcomeView::Failure);
                    }
                }
                let item = if i < rounds.len() {
                    let row = &rounds[i];
                    assert(script == outcomes_view(row@));
                    if j < row.len() {
                        let got = row[j].duplicate();
                        assert(got@ == script[j as int]);
                        got
                    } else {
                        FetchOutcome::Failure
                    }
                } else {
                    FetchOutcome::Failure
                };
                assert(item@ == padded[j as int]);
                let ghost prev = outcomes_view(outcomes@);
                outcomes.push(item);
                assert(outcomes_view(outcomes@) =~= prev.push(item@));
                assert(padded.take(j + 1) =~= padded.take(j as int).push(padded[j as int]));
                assert(outcomes_view(outcomes@) =~= padded.take(j + 1));
            }
            assert(padded.take(m as int) =~= padded);
            let count = match self.scrape_nodes(&outcomes) {
                Ok(c) => c,
                Err(e) => {
                    proof {
                        assert(!rebuilds_ok(at_top.urls, padded));
                        assert(run_rounds(at_top, left, limit) == (
                            at_top,
                            RunOutcome::CursorFailed,
                        ));
                        assert(self@ == at_top);
                    }
                    return Err(e);
                },
            };
            proof {
                assert(outcomes_view(outcomes@) == padded);
                assert(rebuilds_ok(at_top.urls, padded));
                assert(self@ == round_effect(at_top, padded));
                assert(count == round_raws(padded).len());
                assert(at_top.nodes.len() < limit);
            }
            if count == 0 && self.exhausted() {
                proof {
                    assert(run_rounds(at_top, left, limit) == (self@, RunOutcome::Exhausted));
                    lemma_round_raws_finite(padded);
                    round_raws(padded).lemma_len0_is_empty();
                    assert(round_raws(padded).map(project_pred()) =~= Set::<NodeView>::empty());
                    assert(at_top.nodes.union(round_raws(padded).map(project_pred()))
                        =~= at_top.nodes);
                    assert(self@.nodes == at_top.nodes.filter(good_node_pred()));
                    assert(self@.nodes.subset_of(at_top.nodes));
                    lemma_len_subset(self@.nodes, at_top.nodes);
                }
                return Err(PSError::NoMoreNodes);
            }
            proof {
                let rest: Seq<Seq<OutcomeView>> = if left.len() == 0 {
                    left
                } else {
                    left.drop_first()
                };
                assert(run_rounds(at_top, left, limit) == run_rounds(self@, rest, limit));
                left = rest;
                if left_at_top.len() == 0 {
                    assert(forall|j: int|
                        0 <= j < padded.len() ==> (#[trigger] padded[j]) is Failure);
                    lemma_round_raws_failures(padded);
                    assert(count == 0);
                }
            }
            if i < rounds.len() {
                i = i + 1;
                proof {
                    if i < rounds@.len() {
                        assert(left =~= all.skip(i as int));
                    } else {
                        assert(left =~= Seq::<Seq<OutcomeView>>::empty());
                    }
                }
            }
        }
    }
}

} // verus!
