//! The record model: the wire-format record a fetch returns, the reduced
//! stored record, and the projection between them. Identity of a stored
//! record is full structural equality over its four fields.

use vstd::prelude::*;

verus! {

/// What a wire-format record looks like to specifications.
#[verifier::ext_equal]
pub struct RawNodeView {
    pub author: Seq<char>,
    pub body: Seq<char>,
    pub created_utc: u64,
    pub permalink: Seq<char>,
    pub score: i32,
    pub subreddit: Seq<char>,
}

/// What a stored record looks like to specifications.
#[verifier::ext_equal]
pub struct NodeView {
    pub author: Seq<char>,
    pub created_utc: u64,
    pub permalink: Seq<char>,
    pub subreddit: Seq<char>,
}

/// The projection that drops `body` and `score`.
pub open spec fn node_of_raw(raw: RawNodeView) -> NodeView {
    NodeView {
        author: raw.author,
        created_utc: raw.created_utc,
        permalink: raw.permalink,
        subreddit: raw.subreddit,
    }
}

/// A wire-format record: a stored record plus metadata such as the body
/// text and the post rating. Ephemeral; lives only during a fetch.
#[derive(Clone, Debug, Hash)]
pub struct RawNode {
    /// Who wrote the post.
    pub author: String,
    /// The post's text; dropped by the projection.
    pub body: String,
    /// Creation time, epoch seconds.
    pub created_utc: u64,
    /// Link to the post.
    pub permalink: String,
    /// The post's rating; dropped by the projection.
    pub score: i32,
    /// The collection the post was found in.
    pub subreddit: String,
}

impl View for RawNode {
    type V = RawNodeView;

    open spec fn view(&self) -> RawNodeView {
        RawNodeView {
            author: self.author@,
            body: self.body@,
            created_utc: self.created_utc,
            permalink: self.permalink@,
            score: self.score,
            subreddit: self.subreddit@,
        }
    }
}

impl PartialEq for RawNode {
    /// Structural equality over all six fields.
    fn eq(&self, other: &RawNode) -> (r: bool) {
        self.author == other.author && self.body == other.body && self.created_utc
            == other.created_utc && self.permalink == other.permalink && self.score == other.score
            && self.subreddit == other.subreddit
    }
}

impl vstd::std_specs::cmp::PartialEqSpecImpl for RawNode {
    open spec fn obeys_eq_spec() -> bool {
        true
    }

    open spec fn eq_spec(&self, other: &RawNode) -> bool {
        self@ == other@
    }
}

impl RawNode {
    /// A copy with the same fields.
    pub fn duplicate(&self) -> (r: RawNode)
        ensures
            r@ == self@,
    {
        RawNode {
            author: self.author.clone(),
            body: self.body.clone(),
            created_utc: self.created_utc,
            permalink: self.permalink.clone(),
            score: self.score,
            subreddit: self.subreddit.clone(),
        }
    }
}

/// A stored record: the projection of a wire-format record, keeping
/// author, creation time, permalink and collection name.
#[derive(Clone, Debug, Hash)]
pub struct Node {
    /// Who wrote the post; replaced by a digest when anonymized.
    pub author: String,
    /// Creation time, epoch seconds.
    pub created_utc: u64,
    /// Link to the post; replaced by a topic digest when anonymized.
    pub permalink: String,
    /// The collection the post was found in.
    pub subreddit: String,
}

impl View for Node {
    type V = NodeView;

    open spec fn view(&self) -> NodeView {
        NodeView {
            author: self.author@,
            created_utc: self.created_utc,
            permalink: self.permalink@,
            subreddit: self.subreddit@,
        }
    }
}

impl PartialEq for Node {
    /// Structural equality over exactly the four retained fields.
    fn eq(&self, other: &Node) -> (r: bool) {
        self.author == other.author && self.created_utc == other.created_utc && self.permalink
            == other.permalink && self.subreddit == other.subreddit
    }
}

impl vstd::std_specs::cmp::PartialEqSpecImpl for Node {
    open spec fn obeys_eq_spec() -> bool {
        true
    }

    open spec fn eq_spec(&self, other: &Node) -> bool {
        self@ == other@
    }
}

impl Node {
    /// A copy with the same fields.
    pub fn duplicate(&self) -> (r: Node)
        ensures
            r@ == self@,
    {
        Node {
            author: self.author.clone(),
            created_utc: self.created_utc,
            permalink: self.permalink.clone(),
            subreddit: self.subreddit.clone(),
        }
    }
}

impl From<RawNode> for Node {
    /// Projects a wire-format record, dropping `body` and `score`.
    fn from(raw: RawNode) -> (r: Node) {
        Node {
            author: raw.author,
            created_utc: raw.created_utc,
            permalink: raw.permalink,
            subreddit: raw.subreddit,
        }
    }
}

impl vstd::std_specs::convert::FromSpecImpl<RawNode> for Node {
    open spec fn obeys_from_spec() -> bool {
        true
    }

    open spec fn from_spec(raw: RawNode) -> Node {
        Node {
            author: raw.author,
            created_utc: raw.created_utc,
            permalink: raw.permalink,
            subreddit: raw.subreddit,
        }
    }
}

impl Node {
    /// Projects a borrowed wire-format record, cloning the kept fields.
    pub fn from_raw(raw: &RawNode) -> (r: Node)
        ensures
            r@ == node_of_raw(raw@),
    {
        Node {
            author: raw.author.clone(),
            created_utc: raw.created_utc,
            permalink: raw.permalink.clone(),
            subreddit: raw.subreddit.clone(),
        }
    }
}

/// One page as the source returns it: a single array field of records.
#[derive(Debug)]
pub struct PushshiftBase {
    pub data: Vec<RawNode>,
}

/// The root object behind a per-user listing.
#[derive(Debug)]
pub struct RedditUserRoot {
    pub data: RedditUserBase,
}

/// The listing of pages a user's history decodes to.
#[derive(Debug)]
pub struct RedditUserBase {
    pub children: Vec<PushshiftBase>,
}

impl From<RedditUserRoot> for RedditUserBase {
    /// Unwraps the root object around a user listing.
    fn from(userroot: RedditUserRoot) -> (r: RedditUserBase) {
        RedditUserBase { children: userroot.data.children }
    }
}

impl vstd::std_specs::convert::FromSpecImpl<RedditUserRoot> for RedditUserBase {
    open spec fn obeys_from_spec() -> bool {
        true
    }

    open spec fn from_spec(userroot: RedditUserRoot) -> RedditUserBase {
        RedditUserBase { children: userroot.data.children }
    }
}

} // verus!
