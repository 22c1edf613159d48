//! The path resolver: folds a sequence of query tokens into a working path.
//!
//! The resolver never touches the file system itself. It consumes tokens for
//! as long as they can be answered from the working path alone, and stops
//! where it needs to know what lies below: a walk of the tree for a recursive
//! token, a listing of subdirectories for a plain one. Its driver supplies
//! what was asked for and gets the next stop back, until the tokens are used
//! up or one of them matches nothing. A token either commits in full or fails
//! the whole resolution; the working path is never left half-updated.

use vstd::prelude::*;

use crate::path::{
    climbed,
    extended,
    path_components,
    path_of,
    popped,
    rendered,
    PathView,
    WorkingPath,
};
use crate::search::{
    find_nearest,
    find_shortest,
    finds,
    is_nearest,
    is_shortest,
    lemma_nearest,
    lemma_shortest,
    name_lists,
    narrow,
    narrowed,
    nearest,
    path_views,
    shortest,
};
use crate::token::{parse_tokens, token_of, token_views, Token, TokenView};

verus! {

/// A token that matched nothing, with the path that had been reached.
#[derive(Debug, PartialEq, Eq)]
pub struct NoMatch {
    /// The query that matched nothing.
    pub query: String,
    /// The working path as it stood when the query was tried.
    pub reached: WorkingPath,
    /// Whether the query was tried on the tree below the path, rather than
    /// on the names of the path itself.
    pub in_tree: bool,
}

/// What a failure says, with its strings taken as character sequences.
pub struct NoMatchView {
    pub query: Seq<char>,
    pub reached: PathView,
    pub in_tree: bool,
}

impl View for NoMatch {
    type V = NoMatchView;

    open spec fn view(&self) -> NoMatchView {
        NoMatchView { query: self.query@, reached: self.reached@, in_tree: self.in_tree }
    }
}

/// The diagnostic for a failure: it names the query and the path reached.
pub open spec fn message_of(failure: NoMatchView) -> Seq<char> {
    (if failure.in_tree {
        "ce: No directory name matching in tree '"@
    } else {
        "ce: No directory name matching '"@
    }) + failure.query + "': Reached '"@ + rendered(failure.reached) + "'"@
}

impl NoMatch {
    /// The diagnostic for this failure.
    pub fn message(&self) -> (text: String)
        ensures
            text@ == message_of(self@),
    {
        let mut text = if self.in_tree {
            "ce: No directory name matching in tree '".to_owned()
        } else {
            "ce: No directory name matching '".to_owned()
        };
        text.append(self.query.as_str());
        text.append("': Reached '");
        let reached = self.reached.render();
        text.append(reached.as_str());
        text.append("'");
        text
    }
}

/// A resolution that waits for a walk of the tree below its working path.
#[derive(Debug)]
pub struct Descent {
    path: WorkingPath,
    tokens: Vec<Token>,
    at: usize,
}

/// A resolution that waits for the subdirectories of each path of its
/// working set.
#[derive(Debug)]
pub struct Narrowing {
    path: WorkingPath,
    tokens: Vec<Token>,
    at: usize,
    set: Vec<WorkingPath>,
}

/// Where a resolution stands.
#[derive(Debug)]
pub enum Progress {
    /// All tokens are consumed; this is the path they lead to.
    Done(WorkingPath),
    /// A token matched nothing.
    Failed(NoMatch),
    /// A recursive token is next: the tree below the working path is needed.
    Walk(Descent),
    /// A plain token is next: the subdirectories of the working set are
    /// needed.
    List(Narrowing),
}

/// What a waiting descent holds: the working path, all the tokens, and the
/// place of the recursive token that is next.
pub struct DescentView {
    pub path: PathView,
    pub tokens: Seq<TokenView>,
    pub at: int,
}

/// What a waiting chain holds: the working path from which the chain set
/// out, all the tokens, the place of the plain token that is next, and the
/// paths that have survived the chain so far.
pub struct NarrowingView {
    pub path: PathView,
    pub tokens: Seq<TokenView>,
    pub at: int,
    pub set: Seq<PathView>,
}

/// Where a resolution stands, with its strings taken as character sequences.
pub enum Stage {
    Done(PathView),
    Failed(NoMatchView),
    Walk(DescentView),
    List(NarrowingView),
}

impl View for Progress {
    type V = Stage;

    open spec fn view(&self) -> Stage {
        match self {
            Progress::Done(path) => Stage::Done(path@),
            Progress::Failed(failure) => Stage::Failed(failure@),
            Progress::Walk(descent) => Stage::Walk(descent@),
            Progress::List(narrowing) => Stage::List(narrowing@),
        }
    }
}

/// The query that the token at `at` carries; empty where it carries none.
pub open spec fn query_at(tokens: Seq<TokenView>, at: int) -> Seq<char> {
    if 0 <= at < tokens.len() {
        match tokens[at] {
            TokenView::Root(text) => text,
            TokenView::AncestorPop(_) => Seq::empty(),
            TokenView::AncestorSearch(text) => text,
            TokenView::Recursive(text) => text,
            TokenView::Plain(text) => text,
        }
    } else {
        Seq::empty()
    }
}

/// Whether the token at `at` is a plain one.
pub open spec fn is_plain(tokens: Seq<TokenView>, at: int) -> bool {
    0 <= at < tokens.len() && tokens[at] is Plain
}

/// The end of the chain that `from` lies in: the first place at or after
/// `from` that holds no plain token.
pub open spec fn chain_end(tokens: Seq<TokenView>, from: int) -> int
    decreases tokens.len() - from,
{
    if is_plain(tokens, from) {
        chain_end(tokens, from + 1)
    } else {
        from
    }
}

/// The number of names that an ancestor token pops: the count it gives, or
/// one where it gives none.
pub open spec fn pop_count(count: Option<u64>) -> nat {
    match count {
        Some(n) => n as nat,
        None => 1,
    }
}

/// Where the resolution stands after consuming, from `at` on, every token
/// that can be answered from the working path alone.
///
/// A root token replaces the path; an ancestor token pops names or climbs to
/// a matching name, and fails the resolution where no name matches. Each
/// consumes exactly one token. The run stops in front of the first recursive
/// or plain token, and is done when no token is left.
pub open spec fn run(path: PathView, tokens: Seq<TokenView>, at: int) -> Stage
    decreases tokens.len() - at,
{
    if at < 0 || at >= tokens.len() {
        Stage::Done(path)
    } else {
        match tokens[at] {
            TokenView::Root(text) => run(path_of(path_components(text)), tokens, at + 1),
            TokenView::AncestorPop(count) => run(popped(path, pop_count(count)), tokens, at + 1),
            TokenView::AncestorSearch(query) => match climbed(path, query) {
                Some(higher) => run(higher, tokens, at + 1),
                None => Stage::Failed(NoMatchView { query, reached: path, in_tree: false }),
            },
            TokenView::Recursive(_) => Stage::Walk(DescentView { path, tokens, at }),
            TokenView::Plain(_) => Stage::List(NarrowingView { path, tokens, at, set: seq![path] }),
        }
    }
}

/// Where a waiting descent stands once the tree below its path has been
/// walked. `entries` holds what the walk found, each entry as the names that
/// lead to it from the working path. The nearest directory whose name the
/// query matches becomes the working path and the run goes on behind the
/// token; where there is none the resolution fails, naming the query and the
/// working path as it was.
pub open spec fn after_walk(waiting: DescentView, entries: Seq<Seq<Seq<char>>>) -> Stage {
    let query = query_at(waiting.tokens, waiting.at);
    match nearest(entries, query) {
        Some(k) => run(extended(waiting.path, entries[k]), waiting.tokens, waiting.at + 1),
        None => Stage::Failed(NoMatchView { query, reached: waiting.path, in_tree: true }),
    }
}

/// Where a waiting chain stands once the subdirectories of its working set
/// have been listed. The set is narrowed by the plain token that was next.
/// Where nothing survives, the resolution fails, naming the last token of the
/// chain and the working path from which the chain set out. Where the chain
/// goes on, it waits again, in front of its next token. Where the chain ends,
/// the shortest surviving path becomes the working path and the run goes on
/// behind the chain.
pub open spec fn after_listing(waiting: NarrowingView, listings: Seq<Seq<Seq<char>>>) -> Stage {
    let query = query_at(waiting.tokens, waiting.at);
    let set = narrowed(waiting.set, listings, query);
    if set.len() == 0 {
        Stage::Failed(
            NoMatchView {
                query: query_at(waiting.tokens, chain_end(waiting.tokens, waiting.at) - 1),
                reached: waiting.path,
                in_tree: true,
            },
        )
    } else if is_plain(waiting.tokens, waiting.at + 1) {
        Stage::List(
            NarrowingView {
                path: waiting.path,
                tokens: waiting.tokens,
                at: waiting.at + 1,
                set,
            },
        )
    } else {
        run(set[shortest(set).unwrap()], waiting.tokens, waiting.at + 1)
    }
}

/// How many tokens a resolution has yet to consume: those from the one it
/// waits at on, and none once it is done or has failed.
pub open spec fn pending(stage: Stage) -> nat {
    match stage {
        Stage::Done(_) => 0,
        Stage::Failed(_) => 0,
        Stage::Walk(waiting) => if waiting.at < waiting.tokens.len() {
            (waiting.tokens.len() - waiting.at) as nat
        } else {
            0
        },
        Stage::List(waiting) => if waiting.at < waiting.tokens.len() {
            (waiting.tokens.len() - waiting.at) as nat
        } else {
            0
        },
    }
}

/// A run consumes tokens in order and never goes back: where it stops, it
/// waits at or after the place it set out from, in front of a token of the
/// kind it says it waits for, with the same tokens in hand.
pub proof fn lemma_run_stops(path: PathView, tokens: Seq<TokenView>, at: int)
    requires
        0 <= at <= tokens.len(),
    ensures
        pending(run(path, tokens, at)) <= tokens.len() - at,
        run(path, tokens, at) matches Stage::Walk(waiting) ==> waiting.tokens == tokens && at
            <= waiting.at < tokens.len() && tokens[waiting.at] is Recursive,
        run(path, tokens, at) matches Stage::List(waiting) ==> waiting.tokens == tokens && at
            <= waiting.at < tokens.len() && tokens[waiting.at] is Plain,
    decreases tokens.len() - at,
{
    if at < tokens.len() {
        match tokens[at] {
            TokenView::Root(text) => {
                lemma_run_stops(path_of(path_components(text)), tokens, at + 1);
            },
            TokenView::AncestorPop(count) => {
                lemma_run_stops(popped(path, pop_count(count)), tokens, at + 1);
            },
            TokenView::AncestorSearch(query) => {
                if let Some(higher) = climbed(path, query) {
                    lemma_run_stops(higher, tokens, at + 1);
                }
            },
            TokenView::Recursive(_) => {},
            TokenView::Plain(_) => {},
        }
    }
}

/// Every walk that is supplied brings the resolution forward: the recursive
/// token it was for is consumed, and fewer tokens are left than before.
pub proof fn lemma_walk_advances(waiting: DescentView, entries: Seq<Seq<Seq<char>>>)
    requires
        0 <= waiting.at < waiting.tokens.len(),
    ensures
        pending(after_walk(waiting, entries)) < pending(Stage::Walk(waiting)),
{
    let query = query_at(waiting.tokens, waiting.at);
    if let Some(k) = nearest(entries, query) {
        lemma_run_stops(extended(waiting.path, entries[k]), waiting.tokens, waiting.at + 1);
    }
}

/// Every listing that is supplied brings the resolution forward: the plain
/// token it was for is consumed, and fewer tokens are left than before.
pub proof fn lemma_listing_advances(waiting: NarrowingView, listings: Seq<Seq<Seq<char>>>)
    requires
        0 <= waiting.at < waiting.tokens.len(),
    ensures
        pending(after_listing(waiting, listings)) < pending(Stage::List(waiting)),
{
    let query = query_at(waiting.tokens, waiting.at);
    let set = narrowed(waiting.set, listings, query);
    if set.len() > 0 && !is_plain(waiting.tokens, waiting.at + 1) {
        lemma_run_stops(set[shortest(set).unwrap()], waiting.tokens, waiting.at + 1);
    }
}

/// A token that pops `count` names, met on a path that has at least as many,
/// takes exactly `count` names off the end of the path and is consumed.
pub proof fn lemma_pop_token(path: PathView, tokens: Seq<TokenView>, at: int, count: u64)
    requires
        0 <= at < tokens.len(),
        tokens[at] == TokenView::AncestorPop(Some(count)),
        count <= path.names.len(),
    ensures
        run(path, tokens, at) == run(
            PathView { anchor: path.anchor, names: path.names.take(path.names.len() - count) },
            tokens,
            at + 1,
        ),
{
    assert(popped(path, count as nat).names == path.names.take(path.names.len() - count));
}

/// A recursive token selects the nearest directory below the working path
/// whose name its query matches, the first found among equally near ones, and
/// the run goes on from there. Where the walk holds no such directory the
/// resolution fails, and the failure names the query and the working path,
/// unchanged.
pub proof fn lemma_walk_selects_nearest(waiting: DescentView, entries: Seq<Seq<Seq<char>>>)
    ensures
        ({
            let query = query_at(waiting.tokens, waiting.at);
            match nearest(entries, query) {
                Some(k) => is_nearest(entries, query, k) && after_walk(waiting, entries) == run(
                    extended(waiting.path, entries[k]),
                    waiting.tokens,
                    waiting.at + 1,
                ),
                None => finds(entries, query, None) && after_walk(waiting, entries)
                    == Stage::Failed(
                    NoMatchView { query, reached: waiting.path, in_tree: true },
                ),
            }
        }),
{
    let query = query_at(waiting.tokens, waiting.at);
    lemma_nearest(entries, query, nearest(entries, query));
}

/// The last token of a chain commits the resolution to the shortest of the
/// paths that have survived every token of the chain, the first among equally
/// short ones, and the run goes on from there.
pub proof fn lemma_chain_commits(waiting: NarrowingView, listings: Seq<Seq<Seq<char>>>)
    requires
        !is_plain(waiting.tokens, waiting.at + 1),
        narrowed(waiting.set, listings, query_at(waiting.tokens, waiting.at)).len() > 0,
    ensures
        ({
            let set = narrowed(waiting.set, listings, query_at(waiting.tokens, waiting.at));
            exists|k: int|
                is_shortest(set, k) && after_listing(waiting, listings) == run(
                    #[trigger] set[k],
                    waiting.tokens,
                    waiting.at + 1,
                )
        }),
{
    let set = narrowed(waiting.set, listings, query_at(waiting.tokens, waiting.at));
    lemma_shortest(set, 0);
    let k = shortest(set).unwrap();
    lemma_shortest(set, k);
    assert(is_shortest(set, k) && after_listing(waiting, listings) == run(
        set[k],
        waiting.tokens,
        waiting.at + 1,
    ));
}

/// The tokens that a sequence of raw words writes, in order.
pub open spec fn tokens_of(raw: Seq<String>) -> Seq<TokenView> {
    Seq::new(raw.len(), |i: int| token_of(raw[i]@))
}

/// The query that a token carries.
fn query_of(token: &Token) -> (text: &str)
    ensures
        text@ == query_at(seq![token@], 0),
{
    match token {
        Token::Root(text) => text.as_str(),
        Token::AncestorPop(_) => {
            proof {
                reveal_strlit("");
            }
            ""
        },
        Token::AncestorSearch(text) => text.as_str(),
        Token::Recursive(text) => text.as_str(),
        Token::Plain(text) => text.as_str(),
    }
}

/// Consumes, from `at` on, every token that can be answered from the
/// working path alone.
fn run_from(start: WorkingPath, tokens: Vec<Token>, from: usize) -> (p: Progress)
    requires
        from <= tokens.len(),
    ensures
        p@ == run(start@, token_views(tokens@), from as int),
{
    let ghost all = token_views(tokens@);
    let ghost goal = run(start@, all, from as int);
    let mut path = start;
    let mut at = from;
    loop
        invariant
            at <= tokens.len(),
            all == token_views(tokens@),
            goal == run(start@, all, from as int),
            goal == run(path@, all, at as int),
        decreases tokens.len() - at,
    {
        if at >= tokens.len() {
            return Progress::Done(path);
        }
        assert(all[at as int] == tokens@[at as int]@);
        let mut waits_for_walk = false;
        let mut waits_for_listing = false;
        match &tokens[at] {
            Token::Root(text) => {
                path = WorkingPath::parse(text.as_str());
            },
            Token::AncestorPop(count) => {
                let n: u64 = match count {
                    Some(n) => *n,
                    None => 1,
                };
                path.pop(n);
            },
            Token::AncestorSearch(query) => {
                if !path.climb_to(query.as_str()) {
                    return Progress::Failed(
                        NoMatch { query: query.clone(), reached: path, in_tree: false },
                    );
                }
            },
            Token::Recursive(_) => {
                waits_for_walk = true;
            },
            Token::Plain(_) => {
                waits_for_listing = true;
            },
        }
        if waits_for_walk {
            return Progress::Walk(Descent { path, tokens, at });
        }
        if waits_for_listing {
            let mut set: Vec<WorkingPath> = Vec::new();
            set.push(path.duplicate());
            assert(path_views(set@) == seq![path@]);
            return Progress::List(Narrowing { path, tokens, at, set });
        }
        at = at + 1;
    }
}

/// Starts a resolution at `start` with `tokens`, and runs it up to its
/// first stop.
pub fn resolve_tokens(start: WorkingPath, tokens: Vec<Token>) -> (p: Progress)
    ensures
        p@ == run(start@, token_views(tokens@), 0),
{
    run_from(start, tokens, 0)
}

/// Starts a resolution at `start` with the raw words `raw` as its tokens,
/// and runs it up to its first stop.
pub fn resolve(start: WorkingPath, raw: &[String]) -> (p: Progress)
    ensures
        p@ == run(start@, tokens_of(raw@), 0),
{
    let tokens = parse_tokens(raw);
    assert(token_views(tokens@) == tokens_of(raw@));
    resolve_tokens(start, tokens)
}

impl Descent {
    #[verifier::type_invariant]
    spec fn waits_at_token(&self) -> bool {
        self.at < self.tokens.len() && self.tokens[self.at as int]@ is Recursive
    }

    /// What this descent holds.
    pub closed spec fn view(&self) -> DescentView {
        DescentView { path: self.path@, tokens: token_views(self.tokens@), at: self.at as int }
    }

    /// The working path: the root of the tree that is to be walked.
    pub fn root(&self) -> (path: &WorkingPath)
        ensures
            path@ == self@.path,
    {
        &self.path
    }

    /// The query that the walk is for: that of the recursive token at which
    /// the resolution waits.
    pub fn query(&self) -> (text: &str)
        ensures
            text@ == query_at(self@.tokens, self@.at),
            0 <= self@.at < self@.tokens.len(),
            self@.tokens[self@.at] is Recursive,
    {
        proof {
            use_type_invariant(self);
        }
        assert(token_views(self.tokens@)[self.at as int] == self.tokens@[self.at as int]@);
        query_of(&self.tokens[self.at])
    }

    /// Takes what the walk found and runs the resolution up to its next
    /// stop. Each entry is the list of names that lead to one directory from
    /// the working path, and the entries come in the order of the walk.
    pub fn feed(self, entries: &[Vec<String>]) -> (p: Progress)
        ensures
            p@ == after_walk(self@, name_lists(entries@)),
    {
        proof {
            use_type_invariant(&self);
        }
        let Descent { path, tokens, at } = self;
        assert(token_views(tokens@)[at as int] == tokens@[at as int]@);
        let query = query_of(&tokens[at]);
        match find_nearest(entries, query) {
            Some(k) => {
                let mut path = path;
                path.extend(entries[k].as_slice());
                assert(name_lists(entries@)[k as int] == crate::text::texts_of(entries@[k as int]@));
                run_from(path, tokens, at + 1)
            },
            None => {
                let query = query.to_owned();
                Progress::Failed(NoMatch { query, reached: path, in_tree: true })
            },
        }
    }
}

impl Narrowing {
    #[verifier::type_invariant]
    spec fn waits_at_token(&self) -> bool {
        self.at < self.tokens.len() && self.tokens[self.at as int]@ is Plain
    }

    /// What this chain holds.
    pub closed spec fn view(&self) -> NarrowingView {
        NarrowingView {
            path: self.path@,
            tokens: token_views(self.tokens@),
            at: self.at as int,
            set: path_views(self.set@),
        }
    }

    /// The working set: the paths whose subdirectories are to be listed.
    pub fn paths(&self) -> (set: &[WorkingPath])
        ensures
            path_views(set@) == self@.set,
    {
        self.set.as_slice()
    }

    /// The query that the listed names will be held against: that of the
    /// plain token at which the resolution waits.
    pub fn query(&self) -> (text: &str)
        ensures
            text@ == query_at(self@.tokens, self@.at),
            0 <= self@.at < self@.tokens.len(),
            self@.tokens[self@.at] is Plain,
    {
        proof {
            use_type_invariant(self);
        }
        assert(token_views(self.tokens@)[self.at as int] == self.tokens@[self.at as int]@);
        query_of(&self.tokens[self.at])
    }

    /// Takes the listings and runs the resolution up to its next stop.
    /// `listings` holds, in the place of each path of the working set, the
    /// names of the directories directly below it.
    pub fn feed(self, listings: &[Vec<String>]) -> (p: Progress)
        ensures
            p@ == after_listing(self@, name_lists(listings@)),
    {
        proof {
            use_type_invariant(&self);
        }
        let Narrowing { path, tokens, at, set } = self;
        let ghost all = token_views(tokens@);
        assert(all[at as int] == tokens@[at as int]@);
        let next = narrow(set.as_slice(), listings, query_of(&tokens[at]));
        if next.len() == 0 {
            let mut last = at;
            while last + 1 < tokens.len() && is_plain_token(&tokens[last + 1])
                invariant
                    at <= last < tokens.len(),
                    all == token_views(tokens@),
                    is_plain(all, last as int),
                    chain_end(all, at as int) == chain_end(all, last as int),
                decreases tokens.len() - last,
            {
                assert(all[last + 1] == tokens@[last + 1]@);
                last = last + 1;
            }
            assert(last + 1 < tokens.len() ==> all[last + 1] == tokens@[last + 1]@);
            assert(all[last as int] == tokens@[last as int]@);
            let query = query_of(&tokens[last]).to_owned();
            assert(chain_end(all, at as int) == last + 1) by {
                assert(is_plain(all, last as int));
                assert(chain_end(all, last as int) == chain_end(all, last + 1));
                assert(!is_plain(all, last + 1));
            }
            return Progress::Failed(NoMatch { query, reached: path, in_tree: true });
        }
        assert(at + 1 < tokens.len() ==> all[at + 1] == tokens@[at + 1]@);
        if at + 1 < tokens.len() && is_plain_token(&tokens[at + 1]) {
            Progress::List(Narrowing { path, tokens, at: at + 1, set: next })
        } else {
            let k = find_shortest(next.as_slice()).unwrap();
            run_from(next[k].duplicate(), tokens, at + 1)
        }
    }
}

/// Whether a token is a plain one.
fn is_plain_token(token: &Token) -> (r: bool)
    ensures
        r == (token@ is Plain),
{
    match token {
        Token::Plain(_) => true,
        _ => false,
    }
}

} // verus!
